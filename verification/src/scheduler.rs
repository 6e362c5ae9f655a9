//! The timeline scheduler: a sorted list of commitments over a bounded
//! horizon, an interval merger, a task pool with dependency gating, and a
//! greedy gap-filling loop.

use crate::config::Config;
use crate::strutil::string_eq;
use crate::task::{instant_ok, task_times_ok, Task};
use vstd::prelude::*;

verus! {

/// Gaps at most this long (in seconds) become a short break.
pub const BREAK_TIME: i64 = 300;

/// The time (in seconds) granted to a task registered without an estimate.
pub const DEFAULT_ESTIMATE: i64 = 600;

/// The fixed slot (in seconds) granted to a meta task.
pub const META_SLOT: i64 = 600;

/// What one commitment on the timeline stands for.
#[derive(Debug)]
pub enum EventData {
    Blocked,
    Break,
    Task { uuid: String, name: String, is_meta: bool },
}

impl EventData {
    /// Whether two payloads are of the same kind with the same content.
    pub open spec fn kind_eq(self, other: EventData) -> bool {
        match (self, other) {
            (EventData::Blocked, EventData::Blocked) => true,
            (EventData::Break, EventData::Break) => true,
            (
                EventData::Task { uuid: u1, name: n1, is_meta: m1 },
                EventData::Task { uuid: u2, name: n2, is_meta: m2 },
            ) => u1@ == u2@ && n1@ == n2@ && m1 == m2,
            _ => false,
        }
    }

    /// Decides `kind_eq`.
    pub fn same_kind(&self, other: &EventData) -> (r: bool)
        ensures
            r == self.kind_eq(*other),
    {
        match (self, other) {
            (EventData::Blocked, EventData::Blocked) => true,
            (EventData::Break, EventData::Break) => true,
            (
                EventData::Task { uuid: u1, name: n1, is_meta: m1 },
                EventData::Task { uuid: u2, name: n2, is_meta: m2 },
            ) => *m1 == *m2 && string_eq(u1, u2) && string_eq(n1, n2),
            _ => false,
        }
    }
}

/// One commitment: the half-open interval `[start, end)` tagged with what
/// occupies it.
#[derive(Debug)]
pub struct Event {
    pub start: i64,
    pub end: i64,
    pub what: EventData,
}

impl Event {
    /// The length of the commitment in seconds.
    pub fn duration(&self) -> (r: i64)
        requires
            i64::MIN <= self.end - self.start <= i64::MAX,
        ensures
            r == self.end - self.start,
    {
        self.end - self.start
    }
}

/// Whether two commitments can merge: same kind, touching or overlapping.
pub open spec fn mergeable(a: Event, b: Event) -> bool {
    a.what.kind_eq(b.what) && a.end >= b.start && a.start <= b.end
}

/// The union interval of two mergeable commitments, keeping the first
/// payload.
pub open spec fn merged(a: Event, b: Event) -> Event {
    Event {
        start: if a.start <= b.start {
            a.start
        } else {
            b.start
        },
        end: if a.end >= b.end {
            a.end
        } else {
            b.end
        },
        what: a.what,
    }
}

/// Whether the commitments are in ascending order of start.
pub open spec fn sorted_by_start(s: Seq<Event>) -> bool {
    forall|i: int, j: int| 0 <= i <= j < s.len() ==> s[i].start <= s[j].start
}

/// Whether every instant in the commitments is within model range.
pub open spec fn events_in_range(s: Seq<Event>) -> bool {
    forall|i: int|
        0 <= i < s.len() ==> instant_ok(#[trigger] s[i].start as int) && instant_ok(s[i].end as int)
}

/// One left-to-right merging pass, already holding an accumulator `cur` and
/// the commitments emitted so far.
pub open spec fn simplify_loop_spec(s: Seq<Event>, cur: Event, done: Seq<Event>) -> Seq<Event>
    decreases s.len(),
{
    if s.len() == 0 {
        done.push(cur)
    } else if mergeable(cur, s[0]) {
        simplify_loop_spec(s.skip(1), merged(cur, s[0]), done)
    } else {
        simplify_loop_spec(s.skip(1), s[0], done.push(cur))
    }
}

/// The merging pass over a whole commitment list.
pub open spec fn simplify_spec(s: Seq<Event>) -> Seq<Event> {
    if s.len() == 0 {
        s
    } else {
        simplify_loop_spec(s.skip(1), s[0], Seq::empty())
    }
}

/// The position at which `block` inserts a commitment starting at `t`: just
/// before the first commitment whose start is strictly greater.
pub open spec fn insertion_point(s: Seq<Event>, t: int) -> int
    decreases s.len(),
{
    if s.len() == 0 {
        0
    } else if s[0].start > t {
        0
    } else {
        1 + insertion_point(s.skip(1), t)
    }
}

/// `insertion_point` is in range, everything before it starts at or before
/// `t`, and everything from it on starts strictly after `t` (in a sorted
/// list, only the element right at it needs to).
pub proof fn lemma_insertion_point(s: Seq<Event>, t: int)
    ensures
        0 <= insertion_point(s, t) <= s.len(),
        forall|j: int| 0 <= j < insertion_point(s, t) ==> s[j].start <= t,
        insertion_point(s, t) < s.len() ==> s[insertion_point(s, t)].start > t,
    decreases s.len(),
{
    if s.len() > 0 && !(s[0].start > t) {
        lemma_insertion_point(s.skip(1), t);
        assert forall|j: int| 0 <= j < insertion_point(s, t) implies s[j].start <= t by {
            if j > 0 {
                assert(s.skip(1)[j - 1].start <= t);
            }
        }
    }
}

/// Any index with the characterization of `insertion_point` is it.
pub proof fn lemma_insertion_point_is(s: Seq<Event>, t: int, k: int)
    requires
        0 <= k <= s.len(),
        forall|j: int| 0 <= j < k ==> s[j].start <= t,
        k < s.len() ==> s[k].start > t,
    ensures
        insertion_point(s, t) == k,
    decreases s.len(),
{
    if s.len() > 0 && !(s[0].start > t) {
        lemma_insertion_point_is(s.skip(1), t, k - 1);
    }
}

/// A task together with the work time still to be scheduled for it.
#[derive(Debug)]
pub struct TimedTask {
    pub task: Task,
    pub remaining_time: i64,
}

impl TimedTask {
    /// Whether the task still has work time left.
    pub open spec fn available_spec(self) -> bool {
        self.remaining_time > 0
    }

    /// Decides `available_spec`.
    pub fn available(&self) -> (r: bool)
        ensures
            r == self.available_spec(),
    {
        self.remaining_time > 0
    }

    /// Whether this is a meta task: one with dependencies, standing for a
    /// grouping item rather than literal work.
    pub open spec fn is_meta_spec(self) -> bool {
        self.task.depends.len() > 0
    }

    /// Decides `is_meta_spec`.
    pub fn is_meta(&self) -> (r: bool)
        ensures
            r == self.is_meta_spec(),
    {
        self.task.depends.len() > 0
    }

    /// Consumes work time, flooring the remainder at zero.
    pub fn checked_sub(&mut self, how_much: i64)
        requires
            old(self).remaining_time >= 0,
            how_much >= 0,
        ensures
            final(self).task == old(self).task,
            final(self).remaining_time == if how_much >= old(self).remaining_time {
                0int
            } else {
                old(self).remaining_time - how_much
            },
    {
        if how_much >= self.remaining_time {
            self.remaining_time = 0;
        } else {
            self.remaining_time = self.remaining_time - how_much;
        }
    }
}

/// Whether `ids` holds a string with content `id`.
pub open spec fn seq_contains_id(ids: Seq<String>, id: Seq<char>) -> bool {
    exists|k: int| 0 <= k < ids.len() && ids[k]@ == id
}

/// Whether the pool's task ids are pairwise distinct.
pub open spec fn pool_uuids_unique(tasks: Seq<TimedTask>) -> bool {
    forall|i: int, j: int|
        0 <= i < j < tasks.len() ==> tasks[i].task.uuid@ != tasks[j].task.uuid@
}

/// Whether the pool holds a task with id `id` that still has remaining
/// time.
pub open spec fn pool_outstanding_has(tasks: Seq<TimedTask>, id: Seq<char>) -> bool {
    exists|i: int| 0 <= i < tasks.len() && tasks[i].task.uuid@ == id && tasks[i].remaining_time > 0
}

/// Whether `out` is exactly the set of pool ids with remaining time, free
/// of duplicates.
pub open spec fn outstanding_matches_pool(tasks: Seq<TimedTask>, out: Seq<String>) -> bool {
    &&& forall|k: int| 0 <= k < out.len() ==> pool_outstanding_has(tasks, #[trigger] out[k]@)
    &&& forall|i: int|
        0 <= i < tasks.len() && (#[trigger] tasks[i]).remaining_time > 0 ==> seq_contains_id(
            out,
            tasks[i].task.uuid@,
        )
    &&& forall|k: int, l: int| 0 <= k < l < out.len() ==> out[k]@ != out[l]@
}

/// Whether every pool entry has in-range instants and non-negative
/// remaining time.
pub open spec fn pool_tasks_ok(tasks: Seq<TimedTask>) -> bool {
    forall|i: int|
        0 <= i < tasks.len() ==> task_times_ok(#[trigger] tasks[i].task) && tasks[i].remaining_time
            >= 0
}

/// The first pool index holding `id`, or the pool's length when absent.
pub open spec fn pool_find(tasks: Seq<TimedTask>, id: Seq<char>) -> int
    decreases tasks.len(),
{
    if tasks.len() == 0 {
        0
    } else if tasks[0].task.uuid@ == id {
        0
    } else {
        1 + pool_find(tasks.skip(1), id)
    }
}

/// `pool_find` is in range, lands on `id`, and nothing before it holds
/// `id`.
pub proof fn lemma_pool_find(tasks: Seq<TimedTask>, id: Seq<char>)
    ensures
        0 <= pool_find(tasks, id) <= tasks.len(),
        pool_find(tasks, id) < tasks.len() ==> tasks[pool_find(tasks, id)].task.uuid@ == id,
        forall|j: int| 0 <= j < pool_find(tasks, id) ==> tasks[j].task.uuid@ != id,
    decreases tasks.len(),
{
    if tasks.len() > 0 && tasks[0].task.uuid@ != id {
        lemma_pool_find(tasks.skip(1), id);
        assert forall|j: int| 0 <= j < pool_find(tasks, id) implies tasks[j].task.uuid@ != id by {
            if j > 0 {
                assert(tasks.skip(1)[j - 1].task.uuid@ != id);
            }
        }
    }
}

/// Any index with the characterization of `pool_find` is it.
pub proof fn lemma_pool_find_is(tasks: Seq<TimedTask>, id: Seq<char>, k: int)
    requires
        0 <= k <= tasks.len(),
        forall|j: int| 0 <= j < k ==> tasks[j].task.uuid@ != id,
        k < tasks.len() ==> tasks[k].task.uuid@ == id,
    ensures
        pool_find(tasks, id) == k,
    decreases tasks.len(),
{
    if tasks.len() > 0 && tasks[0].task.uuid@ != id {
        lemma_pool_find_is(tasks.skip(1), id, k - 1);
    }
}

/// The work time initially granted to a registered task: its estimate
/// (floored at zero), or `DEFAULT_ESTIMATE` when it has none.
pub open spec fn initial_remaining(task: Task) -> int {
    match task.estimate {
        Some(e) => if e >= 0 {
            e as int
        } else {
            0int
        },
        None => DEFAULT_ESTIMATE as int,
    }
}

/// The scheduler: a planning horizon, the urgency configuration, the task
/// pool with its outstanding-id cache, and the commitment timeline.
#[derive(Debug)]
pub struct Scheduler {
    /// Start of the planning horizon.
    pub start: i64,
    /// End of the planning horizon.
    pub end: i64,
    /// Urgency-model configuration.
    pub tw_config: Config,
    /// The task pool, in registration order.
    pub tasks: Vec<TimedTask>,
    /// Cache of the ids of pool tasks with remaining time.
    pub outstanding_tasks: Vec<String>,
    /// The commitment timeline, in ascending order of start.
    pub commitments: Vec<Event>,
}

impl Scheduler {
    /// Well-formedness of the timeline.
    pub open spec fn timeline_wf(self) -> bool {
        &&& sorted_by_start(self.commitments@)
        &&& events_in_range(self.commitments@)
    }

    /// Well-formedness of the task pool: distinct ids, in-range tasks, and
    /// an outstanding cache that is exactly the ids with remaining time.
    pub open spec fn pool_wf(self) -> bool {
        &&& pool_uuids_unique(self.tasks@)
        &&& outstanding_matches_pool(self.tasks@, self.outstanding_tasks@)
        &&& pool_tasks_ok(self.tasks@)
    }

    /// Well-formedness of the whole scheduler.
    pub open spec fn wf(self) -> bool {
        &&& self.timeline_wf()
        &&& self.pool_wf()
        &&& instant_ok(self.start as int)
        &&& instant_ok(self.end as int)
        &&& self.start <= self.end
    }

    /// A scheduler over the horizon `[start, end)` with an empty timeline
    /// and an empty task pool.
    pub fn with_horizon(start: i64, end: i64, tw_config: Config) -> (r: Scheduler)
        requires
            instant_ok(start as int),
            instant_ok(end as int),
            start <= end,
        ensures
            r.wf(),
            r.start == start,
            r.end == end,
            r.tw_config == tw_config,
            r.commitments@ == Seq::<Event>::empty(),
            r.tasks@ == Seq::<TimedTask>::empty(),
            r.outstanding_tasks@ == Seq::<String>::empty(),
    {
        Scheduler {
            start,
            end,
            tw_config,
            tasks: Vec::new(),
            outstanding_tasks: Vec::new(),
            commitments: Vec::new(),
        }
    }

    /// Inserts an externally-sourced blocked interval, keeping the timeline
    /// sorted by start. A no-op when the interval lies entirely outside the
    /// horizon. No clipping and no merging happens here; overlaps are left
    /// for `simplify`.
    pub fn block(&mut self, start: i64, end: i64)
        requires
            instant_ok(start as int),
            instant_ok(end as int),
        ensures
            end <= old(self).start || start >= old(self).end ==> *final(self) == *old(self),
            !(end <= old(self).start || start >= old(self).end) ==> final(self).commitments@
                == old(self).commitments@.insert(
                insertion_point(old(self).commitments@, start as int),
                Event { start, end, what: EventData::Blocked },
            ),
            final(self).start == old(self).start,
            final(self).end == old(self).end,
            final(self).tw_config == old(self).tw_config,
            final(self).tasks == old(self).tasks,
            final(self).outstanding_tasks == old(self).outstanding_tasks,
            old(self).wf() ==> final(self).wf(),
    {
        if end <= self.start || start >= self.end {
            return ;
        }
        let new_event = Event { start, end, what: EventData::Blocked };
        let ghost s0 = self.commitments@;
        let n = self.commitments.len();
        let mut i: usize = 0;
        while i < n
            invariant
                i <= n,
                n == self.commitments@.len(),
                self.commitments@ == s0,
                s0 == old(self).commitments@,
                self.start == old(self).start,
                self.end == old(self).end,
                self.tw_config == old(self).tw_config,
                self.tasks == old(self).tasks,
                self.outstanding_tasks == old(self).outstanding_tasks,
                instant_ok(start as int),
                instant_ok(end as int),
                !(end <= old(self).start || start >= old(self).end),
                old(self).wf() ==> sorted_by_start(s0),
                new_event == (Event { start, end, what: EventData::Blocked }),
                forall|j: int| 0 <= j < i ==> self.commitments@[j].start <= start,
            decreases n - i,
        {
            if self.commitments[i].start > start {
                proof {
                    lemma_insertion_point_is(s0, start as int, i as int);
                }
                self.commitments.insert(i, new_event);
                proof {
                    if old(self).wf() {
                        assert(sorted_by_start(self.commitments@)) by {
                            block_insert_sorted(s0, new_event, i as int);
                        }
                        assert(events_in_range(self.commitments@)) by {
                            insert_in_range(s0, new_event, i as int);
                        }
                    }
                }
                return ;
            }
            i = i + 1;
        }
        proof {
            lemma_insertion_point_is(s0, start as int, n as int);
        }
        self.commitments.push(new_event);
        proof {
            assert(self.commitments@ =~= s0.insert(
                insertion_point(s0, start as int),
                new_event,
            ));
            if old(self).wf() {
                assert(sorted_by_start(self.commitments@)) by {
                    block_insert_sorted(s0, new_event, n as int);
                }
                assert(events_in_range(self.commitments@)) by {
                    insert_in_range(s0, new_event, n as int);
                }
            }
        }
    }
}

/// The index in `ids` of a string with content `id@`, if any.
fn ids_index_of(ids: &Vec<String>, id: &String) -> (r: Option<usize>)
    ensures
        match r {
            Some(k) => k < ids@.len() && ids@[k as int]@ == id@,
            None => !seq_contains_id(ids@, id@),
        },
{
    let n = ids.len();
    let mut i: usize = 0;
    while i < n
        invariant
            i <= n,
            n == ids@.len(),
            forall|j: int| 0 <= j < i ==> ids@[j]@ != id@,
        decreases n - i,
    {
        if string_eq(&ids[i], id) {
            return Some(i);
        }
        i = i + 1;
    }
    None
}

/// The index in the pool of the task with id `id@`, if any; when present it
/// is the first such index, `pool_find`.
fn pool_index_of(tasks: &Vec<TimedTask>, id: &String) -> (r: Option<usize>)
    ensures
        match r {
            Some(k) => k < tasks@.len() && tasks@[k as int].task.uuid@ == id@ && pool_find(
                tasks@,
                id@,
            ) == k,
            None => pool_find(tasks@, id@) == tasks@.len() && !(exists|i: int|
                0 <= i < tasks@.len() && tasks@[i].task.uuid@ == id@),
        },
{
    let n = tasks.len();
    let mut i: usize = 0;
    while i < n
        invariant
            i <= n,
            n == tasks@.len(),
            forall|j: int| 0 <= j < i ==> tasks@[j].task.uuid@ != id@,
        decreases n - i,
    {
        if string_eq(&tasks[i].task.uuid, id) {
            proof {
                lemma_pool_find_is(tasks@, id@, i as int);
            }
            return Some(i);
        }
        i = i + 1;
    }
    proof {
        lemma_pool_find_is(tasks@, id@, n as int);
    }
    None
}

/// Removing one id from a duplicate-free id list removes exactly it.
proof fn lemma_ids_remove(out: Seq<String>, k: int)
    requires
        0 <= k < out.len(),
        forall|a: int, b: int| 0 <= a < b < out.len() ==> out[a]@ != out[b]@,
    ensures
        !seq_contains_id(out.remove(k), out[k]@),
        forall|id2: Seq<char>|
            id2 != out[k]@ ==> (seq_contains_id(out.remove(k), id2) <==> seq_contains_id(
                out,
                id2,
            )),
{
    let o1 = out.remove(k);
    assert forall|id2: Seq<char>| id2 != out[k]@ implies (seq_contains_id(o1, id2)
        <==> seq_contains_id(out, id2)) by {
        if seq_contains_id(out, id2) {
            let j = choose|j: int| 0 <= j < out.len() && out[j]@ == id2;
            assert(j != k);
            if j < k {
                assert(o1[j]@ == id2);
            } else {
                assert(o1[j - 1]@ == id2);
            }
        }
        if seq_contains_id(o1, id2) {
            let j = choose|j: int| 0 <= j < o1.len() && o1[j]@ == id2;
            if j < k {
                assert(out[j]@ == id2);
            } else {
                assert(out[j + 1]@ == id2);
            }
        }
    }
    assert(!seq_contains_id(o1, out[k]@)) by {
        if seq_contains_id(o1, out[k]@) {
            let j = choose|j: int| 0 <= j < o1.len() && o1[j]@ == out[k]@;
            if j < k {
                assert(out[j]@ == out[k]@);
            } else {
                assert(out[j + 1]@ == out[k]@);
            }
        }
    }
}

/// Pushing an id onto an id list adds exactly it.
proof fn lemma_ids_push(out: Seq<String>, s: String)
    ensures
        seq_contains_id(out.push(s), s@),
        forall|id2: Seq<char>|
            id2 != s@ ==> (seq_contains_id(out.push(s), id2) <==> seq_contains_id(out, id2)),
{
    let o1 = out.push(s);
    assert(o1[out.len() as int]@ == s@);
    assert forall|id2: Seq<char>| id2 != s@ implies (seq_contains_id(o1, id2) <==> seq_contains_id(
        out,
        id2,
    )) by {
        if seq_contains_id(out, id2) {
            let j = choose|j: int| 0 <= j < out.len() && out[j]@ == id2;
            assert(o1[j]@ == id2);
        }
        if seq_contains_id(o1, id2) {
            let j = choose|j: int| 0 <= j < o1.len() && o1[j]@ == id2;
            assert(j != out.len());
            assert(out[j]@ == id2);
        }
    }
}

impl Scheduler {
    /// Registers a task with the pool, granting it its estimate (or the
    /// default) as remaining time; a task with the same id as an existing
    /// entry replaces it. The outstanding-id cache is kept exact.
    pub fn add_task(&mut self, task: Task)
        requires
            old(self).pool_wf(),
            task_times_ok(task),
        ensures
            final(self).pool_wf(),
            final(self).start == old(self).start,
            final(self).end == old(self).end,
            final(self).tw_config == old(self).tw_config,
            final(self).commitments == old(self).commitments,
            ({
                let p = pool_find(old(self).tasks@, task.uuid@);
                let tt = TimedTask { task, remaining_time: initial_remaining(task) as i64 };
                if p < old(self).tasks@.len() {
                    final(self).tasks@ == old(self).tasks@.update(p, tt)
                } else {
                    final(self).tasks@ == old(self).tasks@.push(tt)
                }
            }),
            forall|id: Seq<char>|
                id != task.uuid@ ==> (seq_contains_id(final(self).outstanding_tasks@, id)
                    <==> seq_contains_id(old(self).outstanding_tasks@, id)),
            seq_contains_id(final(self).outstanding_tasks@, task.uuid@) <==> initial_remaining(
                task,
            ) > 0,
            old(self).wf() ==> final(self).wf(),
    {
        let rem: i64 = match task.estimate {
            Some(e) => if e >= 0 {
                e
            } else {
                0
            },
            None => DEFAULT_ESTIMATE,
        };
        let key = task.uuid.clone();
        let tt = TimedTask { task, remaining_time: rem };
        let ghost id = key@;
        let ghost tasks0 = self.tasks@;
        let ghost out0 = self.outstanding_tasks@;
        match pool_index_of(&self.tasks, &key) {
            Some(p) => {
                self.tasks.set(p, tt);
            },
            None => {
                self.tasks.push(tt);
            },
        }
        let ghost tasks1 = self.tasks@;
        match ids_index_of(&self.outstanding_tasks, &key) {
            Some(k) => {
                if rem <= 0 {
                    proof {
                        lemma_ids_remove(out0, k as int);
                    }
                    self.outstanding_tasks.remove(k);
                }
            },
            None => {
                if rem > 0 {
                    proof {
                        lemma_ids_push(out0, key);
                    }
                    self.outstanding_tasks.push(key);
                }
            },
        }
        proof {
            assert(rem as int == initial_remaining(task));
        }
        proof {
            lemma_pool_find(tasks0, id);
            let p = pool_find(tasks0, id);
            let out1 = self.outstanding_tasks@;
            assert(pool_uuids_unique(tasks1)) by {
                if p < tasks0.len() {
                    assert(forall|i: int|
                        0 <= i < tasks1.len() && i != p ==> tasks1[i] == tasks0[i]);
                } else {
                    assert(!seq_contains_pool_id(tasks0, id));
                    assert(forall|i: int| 0 <= i < tasks0.len() ==> tasks1[i] == tasks0[i]);
                }
            }
            assert(pool_tasks_ok(tasks1)) by {
                assert(forall|i: int|
                    0 <= i < tasks1.len() && i != p ==> tasks1[i]
                        == tasks0[i]);
            }
            assert(outstanding_matches_pool(tasks1, out1)) by {
                add_task_outstanding_ok(tasks0, out0, tasks1, out1, id, rem as int);
            }
        }
    }
}

/// A merged, sorted commitment list: ascending starts and no two adjacent
/// commitments that could still merge.
pub open spec fn compact(s: Seq<Event>) -> bool {
    &&& sorted_by_start(s)
    &&& forall|i: int| 0 <= i < s.len() - 1 ==> !mergeable(#[trigger] s[i], s[i + 1])
}

/// Whether each commitment ends at or before the next begins.
pub open spec fn adjacent_disjoint(s: Seq<Event>) -> bool {
    forall|i: int| 0 <= i < s.len() - 1 ==> (#[trigger] s[i]).end <= s[i + 1].start
}

/// Whether an emitted commitment `a` can never again merge with the
/// accumulator `c`, however much `c`'s end still grows: the kinds differ,
/// or `a` ends before `c` starts, or `c` is a reversed interval (which
/// never grows) that does not merge with `a`.
pub open spec fn emit_safe(a: Event, c: Event) -> bool {
    ||| !a.what.kind_eq(c.what)
    ||| a.end < c.start
    ||| (c.end < c.start && !mergeable(a, c))
}

/// On a sorted input, the merging pass yields a compact list.
proof fn lemma_simplify_loop_compact(s: Seq<Event>, cur: Event, done: Seq<Event>)
    requires
        sorted_by_start(s),
        sorted_by_start(done),
        forall|i: int| 0 <= i < done.len() ==> done[i].start <= cur.start,
        forall|j: int| 0 <= j < s.len() ==> cur.start <= s[j].start,
        forall|i: int| 0 <= i < done.len() - 1 ==> !mergeable(#[trigger] done[i], done[i + 1]),
        done.len() > 0 ==> emit_safe(done.last(), cur),
    ensures
        compact(simplify_loop_spec(s, cur, done)),
    decreases s.len(),
{
    if s.len() == 0 {
        let out = done.push(cur);
        assert forall|i: int, j: int| 0 <= i <= j < out.len() implies out[i].start
            <= out[j].start by {
            if j < out.len() - 1 {
                assert(out[i] == done[i] && out[j] == done[j]);
            } else if i < out.len() - 1 {
                assert(out[i] == done[i]);
            }
        }
        assert forall|i: int| 0 <= i < out.len() - 1 implies !mergeable(
            #[trigger] out[i],
            out[i + 1],
        ) by {
            if i < out.len() - 2 {
                assert(out[i] == done[i] && out[i + 1] == done[i + 1]);
            } else {
                assert(out[i] == done.last() && out[i + 1] == cur);
            }
        }
    } else if mergeable(cur, s[0]) {
        let cur2 = merged(cur, s[0]);
        assert(cur2.start == cur.start);
        assert(sorted_by_start(s.skip(1))) by {
            assert(forall|a: int, b: int|
                0 <= a <= b < s.skip(1).len() ==> s.skip(1)[a].start == s[a + 1].start && s.skip(
                    1,
                )[b].start == s[b + 1].start);
        }
        assert(forall|j: int| 0 <= j < s.skip(1).len() ==> cur2.start <= s.skip(1)[j].start);
        lemma_simplify_loop_compact(s.skip(1), cur2, done);
    } else {
        let done2 = done.push(cur);
        assert(sorted_by_start(done2)) by {
            assert(forall|i: int, j: int|
                0 <= i <= j < done.len() ==> done2[i] == done[i] && done2[j] == done[j]);
            assert(forall|i: int| 0 <= i < done.len() ==> done2[i] == done[i]);
        }
        assert(sorted_by_start(s.skip(1))) by {
            assert(forall|a: int, b: int|
                0 <= a <= b < s.skip(1).len() ==> s.skip(1)[a].start == s[a + 1].start && s.skip(
                    1,
                )[b].start == s[b + 1].start);
        }
        assert(forall|i: int| 0 <= i < done2.len() ==> done2[i].start <= s[0].start);
        assert(forall|j: int| 0 <= j < s.skip(1).len() ==> s[0].start <= s.skip(1)[j].start);
        assert forall|i: int| 0 <= i < done2.len() - 1 implies !mergeable(
            #[trigger] done2[i],
            done2[i + 1],
        ) by {
            if i < done2.len() - 2 {
                assert(done2[i] == done[i] && done2[i + 1] == done[i + 1]);
            } else {
                assert(done2[i] == done.last() && done2[i + 1] == cur);
            }
        }
        assert(emit_safe(cur, s[0])) by {
            if cur.what.kind_eq(s[0].what) && cur.end >= s[0].start {
                assert(!(cur.start <= s[0].end));
                assert(s[0].end < s[0].start);
            }
        }
        lemma_simplify_loop_compact(s.skip(1), s[0], done2);
    }
}

/// The merging pass keeps every instant within model range.
proof fn lemma_simplify_loop_range(s: Seq<Event>, cur: Event, done: Seq<Event>)
    requires
        events_in_range(s),
        events_in_range(done),
        instant_ok(cur.start as int),
        instant_ok(cur.end as int),
    ensures
        events_in_range(simplify_loop_spec(s, cur, done)),
    decreases s.len(),
{
    if s.len() == 0 {
        let out = done.push(cur);
        assert forall|i: int| 0 <= i < out.len() implies instant_ok(#[trigger] out[i].start as int)
            && instant_ok(out[i].end as int) by {
            if i < out.len() - 1 {
                assert(out[i] == done[i]);
            }
        }
    } else {
        assert(events_in_range(s.skip(1))) by {
            assert(forall|a: int| 0 <= a < s.skip(1).len() ==> s.skip(1)[a] == s[a + 1]);
        }
        assert(instant_ok(s[0].start as int) && instant_ok(s[0].end as int));
        if mergeable(cur, s[0]) {
            lemma_simplify_loop_range(s.skip(1), merged(cur, s[0]), done);
        } else {
            assert(events_in_range(done.push(cur))) by {
                assert(forall|i: int| 0 <= i < done.len() ==> done.push(cur)[i] == done[i]);
                assert(done.push(cur).last() == cur);
            }
            lemma_simplify_loop_range(s.skip(1), s[0], done.push(cur));
        }
    }
}

/// On a list whose adjacent commitments cannot merge, the pass emits
/// everything unchanged.
proof fn lemma_simplify_loop_id(s: Seq<Event>, cur: Event, done: Seq<Event>)
    requires
        s.len() > 0 ==> !mergeable(cur, s[0]),
        forall|i: int| 0 <= i < s.len() - 1 ==> !mergeable(#[trigger] s[i], s[i + 1]),
    ensures
        simplify_loop_spec(s, cur, done) == done + seq![cur] + s,
    decreases s.len(),
{
    if s.len() == 0 {
        assert(done.push(cur) =~= done + seq![cur] + s);
    } else {
        assert(forall|i: int|
            0 <= i < s.skip(1).len() - 1 ==> #[trigger] s.skip(1)[i] == s[i + 1] && s.skip(1)[i
                + 1] == s[i + 2]);
        lemma_simplify_loop_id(s.skip(1), s[0], done.push(cur));
        assert(done.push(cur) + seq![s[0]] + s.skip(1) =~= done + seq![cur] + s);
    }
}

/// On a sorted input, `simplify_spec` yields a compact list with all
/// instants within range.
pub proof fn lemma_simplify_props(s: Seq<Event>)
    requires
        sorted_by_start(s),
    ensures
        compact(simplify_spec(s)),
        events_in_range(s) ==> events_in_range(simplify_spec(s)),
{
    if s.len() > 0 {
        assert(sorted_by_start(s.skip(1))) by {
            assert(forall|a: int, b: int|
                0 <= a <= b < s.skip(1).len() ==> s.skip(1)[a].start == s[a + 1].start && s.skip(
                    1,
                )[b].start == s[b + 1].start);
        }
        assert(forall|j: int| 0 <= j < s.skip(1).len() ==> s[0].start <= s.skip(1)[j].start);
        lemma_simplify_loop_compact(s.skip(1), s[0], Seq::empty());
        if events_in_range(s) {
            assert(events_in_range(s.skip(1))) by {
                assert(forall|a: int| 0 <= a < s.skip(1).len() ==> s.skip(1)[a] == s[a + 1]);
            }
            lemma_simplify_loop_range(s.skip(1), s[0], Seq::empty());
        }
    }
}

/// Merge idempotence: merging an already-merged, sorted commitment list
/// changes nothing. (On lists not sorted by start the pass is not
/// idempotent, so sortedness is required.)
pub proof fn lemma_simplify_idempotent(s: Seq<Event>)
    requires
        sorted_by_start(s),
    ensures
        simplify_spec(simplify_spec(s)) == simplify_spec(s),
{
    let o = simplify_spec(s);
    lemma_simplify_props(s);
    if o.len() > 0 {
        assert(forall|i: int|
            0 <= i < o.skip(1).len() - 1 ==> #[trigger] o.skip(1)[i] == o[i + 1] && o.skip(1)[i
                + 1] == o[i + 2]);
        assert(o.skip(1).len() > 0 ==> !mergeable(o[0], o.skip(1)[0]));
        lemma_simplify_loop_id(o.skip(1), o[0], Seq::empty());
        assert(Seq::<Event>::empty() + seq![o[0]] + o.skip(1) =~= o);
    }
}

impl Scheduler {
    /// Coalesces same-kind touching or overlapping neighbours in one
    /// left-to-right pass over the commitment list.
    pub fn simplify(&mut self)
        ensures
            final(self).commitments@ == simplify_spec(old(self).commitments@),
            final(self).start == old(self).start,
            final(self).end == old(self).end,
            final(self).tw_config == old(self).tw_config,
            final(self).tasks == old(self).tasks,
            final(self).outstanding_tasks == old(self).outstanding_tasks,
            old(self).wf() ==> final(self).wf(),
    {
        proof {
            if old(self).wf() {
                lemma_simplify_props(old(self).commitments@);
            }
        }
        let ghost s0 = self.commitments@;
        if self.commitments.len() == 0 {
            return ;
        }
        let mut old_list: Vec<Event> = Vec::new();
        core::mem::swap(&mut old_list, &mut self.commitments);
        let mut cur = old_list.remove(0);
        proof {
            assert(old_list@ =~= s0.skip(1));
            assert(self.commitments@ =~= Seq::<Event>::empty());
        }
        while old_list.len() > 0
            invariant
                simplify_spec(s0) == simplify_loop_spec(old_list@, cur, self.commitments@),
                self.start == old(self).start,
                self.end == old(self).end,
                self.tw_config == old(self).tw_config,
                self.tasks == old(self).tasks,
                self.outstanding_tasks == old(self).outstanding_tasks,
            decreases old_list.len(),
        {
            let ghost l0 = old_list@;
            let nxt = old_list.remove(0);
            proof {
                assert(old_list@ =~= l0.skip(1));
            }
            let can_merge = cur.what.same_kind(&nxt.what) && cur.end >= nxt.start && cur.start
                <= nxt.end;
            if can_merge {
                if nxt.start < cur.start {
                    cur.start = nxt.start;
                }
                if nxt.end > cur.end {
                    cur.end = nxt.end;
                }
            } else {
                self.commitments.push(cur);
                cur = nxt;
            }
        }
        self.commitments.push(cur);
    }
}

/// Whether every commitment is blocked time with a properly oriented
/// interval.
pub open spec fn all_blocked_proper(s: Seq<Event>) -> bool {
    forall|i: int|
        0 <= i < s.len() ==> (#[trigger] s[i]).what is Blocked && s[i].start <= s[i].end
}

/// The merging pass keeps a timeline of proper blocked intervals one.
proof fn lemma_simplify_loop_blocked(s: Seq<Event>, cur: Event, done: Seq<Event>)
    requires
        all_blocked_proper(s),
        all_blocked_proper(done),
        cur.what is Blocked,
        cur.start <= cur.end,
    ensures
        all_blocked_proper(simplify_loop_spec(s, cur, done)),
    decreases s.len(),
{
    if s.len() == 0 {
        let out = done.push(cur);
        assert forall|i: int| 0 <= i < out.len() implies (#[trigger] out[i]).what is Blocked
            && out[i].start <= out[i].end by {
            if i < out.len() - 1 {
                assert(out[i] == done[i]);
            }
        }
    } else {
        assert(all_blocked_proper(s.skip(1))) by {
            assert(forall|a: int| 0 <= a < s.skip(1).len() ==> #[trigger] s.skip(1)[a] == s[a + 1]);
        }
        assert(s[0].what is Blocked && s[0].start <= s[0].end);
        if mergeable(cur, s[0]) {
            lemma_simplify_loop_blocked(s.skip(1), merged(cur, s[0]), done);
        } else {
            assert(all_blocked_proper(done.push(cur))) by {
                assert(forall|i: int| 0 <= i < done.len() ==> #[trigger] done.push(cur)[i] == done[i]);
                assert(done.push(cur).last() == cur);
            }
            lemma_simplify_loop_blocked(s.skip(1), s[0], done.push(cur));
        }
    }
}

/// After merging a sorted timeline of proper blocked intervals — the shape
/// the horizon seeding and external busy times produce — no commitment
/// overlaps the next: the plan's fixed skeleton is disjoint.
pub proof fn lemma_blocked_simplify_disjoint(s: Seq<Event>)
    requires
        sorted_by_start(s),
        all_blocked_proper(s),
    ensures
        adjacent_disjoint(simplify_spec(s)),
{
    lemma_simplify_props(s);
    let o = simplify_spec(s);
    if s.len() > 0 {
        assert(all_blocked_proper(s.skip(1))) by {
            assert(forall|a: int| 0 <= a < s.skip(1).len() ==> #[trigger] s.skip(1)[a] == s[a + 1]);
        }
        lemma_simplify_loop_blocked(s.skip(1), s[0], Seq::empty());
    }
    assert forall|i: int| 0 <= i < o.len() - 1 implies (#[trigger] o[i]).end <= o[i + 1].start by {
        assert(!mergeable(o[i], o[i + 1]));
        assert(o[i].what is Blocked && o[i + 1].what is Blocked);
        assert(o[i].what.kind_eq(o[i + 1].what));
        assert(o[i].start <= o[i + 1].start <= o[i + 1].end);
    }
}

/// The local calendar could not supply usable day boundaries for the
/// horizon: a date or wall-clock time did not resolve to a unique local
/// instant, or the resolved instants were out of range or out of order.
#[derive(Debug, Clone, Copy, PartialEq, Eq, Structural)]
pub enum HorizonError {
    LocalCalendar,
}

/// Whether `days` holds the weekday code `wd`.
fn contains_day(days: &Vec<u8>, wd: u8) -> (r: bool)
    ensures
        r == exists|j: int| 0 <= j < days@.len() && days@[j] == wd,
{
    let n = days.len();
    let mut i: usize = 0;
    while i < n
        invariant
            i <= n,
            n == days@.len(),
            forall|j: int| 0 <= j < i ==> days@[j] != wd,
        decreases n - i,
    {
        if days[i] == wd {
            return true;
        }
        i = i + 1;
    }
    false
}

/// Appends one seeded blocked commitment, refusing a start that would
/// break the ascending order or an instant outside model range.
fn push_blocked(c: &mut Vec<Event>, last_start: &mut i64, s: i64, e: i64) -> (ok: bool)
    requires
        sorted_by_start(old(c)@),
        events_in_range(old(c)@),
        forall|j: int| 0 <= j < old(c)@.len() ==> (#[trigger] old(c)@[j]).start <= *old(last_start),
        forall|j: int| 0 <= j < old(c)@.len() ==> (#[trigger] old(c)@[j]).what is Blocked,
    ensures
        ok ==> {
            &&& final(c)@ == old(c)@.push(Event { start: s, end: e, what: EventData::Blocked })
            &&& sorted_by_start(final(c)@)
            &&& events_in_range(final(c)@)
            &&& forall|j: int|
                0 <= j < final(c)@.len() ==> (#[trigger] final(c)@[j]).start <= *final(last_start)
            &&& forall|j: int|
                0 <= j < final(c)@.len() ==> (#[trigger] final(c)@[j]).what is Blocked
        },
        !ok ==> *final(c) == *old(c) && *final(last_start) == *old(last_start),
        ok == (*old(last_start) <= s && instant_ok(s as int) && instant_ok(e as int)),
        ok ==> *final(last_start) == s,
{
    if s < *last_start {
        return false;
    }
    if s < -crate::task::MAX_INSTANT || s > crate::task::MAX_INSTANT || e
        < -crate::task::MAX_INSTANT || e > crate::task::MAX_INSTANT {
        return false;
    }
    let ghost c0 = c@;
    c.push(Event { start: s, end: e, what: EventData::Blocked });
    *last_start = s;
    proof {
        let c1 = c@;
        assert forall|i: int, j: int| 0 <= i <= j < c1.len() implies c1[i].start
            <= c1[j].start by {
            if j < c1.len() - 1 {
                assert(c1[i] == c0[i] && c1[j] == c0[j]);
            } else if i < c1.len() - 1 {
                assert(c1[i] == c0[i]);
            }
        }
        assert forall|j: int| 0 <= j < c1.len() implies instant_ok(#[trigger] c1[j].start as int)
            && instant_ok(c1[j].end as int) by {
            if j < c1.len() - 1 {
                assert(c1[j] == c0[j]);
            }
        }
        assert forall|j: int| 0 <= j < c1.len() implies (#[trigger] c1[j]).start
            <= *last_start by {
            if j < c1.len() - 1 {
                assert(c1[j] == c0[j]);
            }
        }
        assert forall|j: int| 0 <= j < c1.len() implies (#[trigger] c1[j]).what is Blocked by {
            if j < c1.len() - 1 {
                assert(c1[j] == c0[j]);
            }
        }
    }
    true
}

/// Seeds one day's offline time, given the day's local instants: on a
/// work day, blocked commitments from midnight to the start of work and
/// from the end of work to the next midnight; on any other day, one
/// blocked commitment for the whole day. Refuses instants that are out of
/// model range or would break the timeline's ascending order, and then
/// changes nothing.
fn seed_day(
    c: &mut Vec<Event>,
    last_start: &mut i64,
    workday: bool,
    midnight: i64,
    work_start: i64,
    work_end: i64,
    next_midnight: i64,
) -> (ok: bool)
    requires
        sorted_by_start(old(c)@),
        events_in_range(old(c)@),
        forall|j: int| 0 <= j < old(c)@.len() ==> (#[trigger] old(c)@[j]).start <= *old(last_start),
        forall|j: int| 0 <= j < old(c)@.len() ==> (#[trigger] old(c)@[j]).what is Blocked,
    ensures
        ok ==> {
            &&& final(c)@ == (if workday {
                old(c)@.push(Event { start: midnight, end: work_start, what: EventData::Blocked })
                    .push(Event { start: work_end, end: next_midnight, what: EventData::Blocked })
            } else {
                old(c)@.push(
                    Event { start: midnight, end: next_midnight, what: EventData::Blocked },
                )
            })
            &&& sorted_by_start(final(c)@)
            &&& events_in_range(final(c)@)
            &&& forall|j: int|
                0 <= j < final(c)@.len() ==> (#[trigger] final(c)@[j]).start <= *final(last_start)
            &&& forall|j: int|
                0 <= j < final(c)@.len() ==> (#[trigger] final(c)@[j]).what is Blocked
        },
        !ok ==> *final(c) == *old(c) && *final(last_start) == *old(last_start),
{
    if workday {
        if !(*last_start <= midnight && midnight <= work_end && -crate::task::MAX_INSTANT
            <= midnight && midnight <= crate::task::MAX_INSTANT && -crate::task::MAX_INSTANT
            <= work_start && work_start <= crate::task::MAX_INSTANT && -crate::task::MAX_INSTANT
            <= work_end && work_end <= crate::task::MAX_INSTANT && -crate::task::MAX_INSTANT
            <= next_midnight && next_midnight <= crate::task::MAX_INSTANT) {
            return false;
        }
        let ok1 = push_blocked(c, last_start, midnight, work_start);
        proof {
            assert(ok1);
        }
        let ok2 = push_blocked(c, last_start, work_end, next_midnight);
        proof {
            assert(ok2);
        }
        true
    } else {
        push_blocked(c, last_start, midnight, next_midnight)
    }
}

impl Scheduler {
    /// Builds a scheduler over `[start, end)` and seeds the timeline with
    /// the local calendar's offline time: for every day touching the
    /// horizon, blocked commitments from midnight to the start of work and
    /// from the end of work to the next midnight on work days (weekday
    /// codes in `work_days`, Monday as `0`), and the whole day otherwise.
    ///
    /// The concrete instants come from the machine's local time zone, so
    /// the contract pins the shape of the result, not its values: on
    /// success the scheduler is well-formed, its pool is empty, and every
    /// seeded commitment is blocked time in ascending order of start.
    /// Calendar data that does not resolve to unique local instants, or
    /// that would break that order, is a `HorizonError`.
    pub fn new(
        start: i64,
        end: i64,
        work_days: Vec<u8>,
        work_start: (u8, u8),
        work_end: (u8, u8),
        tw_config: Config,
    ) -> (r: Result<Scheduler, HorizonError>)
        requires
            instant_ok(start as int),
            instant_ok(end as int),
            start <= end,
        ensures
            r matches Ok(s) ==> {
                &&& s.wf()
                &&& s.start == start
                &&& s.end == end
                &&& s.tw_config == tw_config
                &&& s.tasks@ == Seq::<TimedTask>::empty()
                &&& s.outstanding_tasks@ == Seq::<String>::empty()
                &&& forall|j: int|
                    0 <= j < s.commitments@.len() ==> (#[trigger] s.commitments@[j]).what
                        is Blocked
            },
    {
        let mut sched = Scheduler::with_horizon(start, end, tw_config);
        let mut last_start: i64 = -crate::task::MAX_INSTANT;
        let mut date = start;
        while date <= end
            invariant
                sched.wf(),
                sched.start == start,
                sched.end == end,
                sched.tw_config == tw_config,
                sched.tasks@ == Seq::<TimedTask>::empty(),
                sched.outstanding_tasks@ == Seq::<String>::empty(),
                forall|j: int|
                    0 <= j < sched.commitments@.len() ==> (#[trigger] sched.commitments@[j]).start
                        <= last_start,
                forall|j: int|
                    0 <= j < sched.commitments@.len() ==> (#[trigger] sched.commitments@[j]).what
                        is Blocked,
                start <= date,
                instant_ok(start as int),
                instant_ok(end as int),
                date as int <= end as int + 86400,
            decreases end as int + 86400 - date,
        {
            let (y, mo, d) = match crate::dates::local_ymd(date) {
                Some(v) => v,
                None => {
                    return Err(HorizonError::LocalCalendar);
                },
            };
            if y < 0 || y > 400_000 {
                return Err(HorizonError::LocalCalendar);
            }
            let wd = crate::dates::weekday_of_x(y as u64, mo as u64, d as u64);
            let next_date = date + 86400;
            let (ny, nmo, nd) = match crate::dates::local_ymd(next_date) {
                Some(v) => v,
                None => {
                    return Err(HorizonError::LocalCalendar);
                },
            };
            let midnight = match crate::dates::local_instant(y, mo, d, 0, 0) {
                Some(v) => v,
                None => {
                    return Err(HorizonError::LocalCalendar);
                },
            };
            let next_midnight = match crate::dates::local_instant(ny, nmo, nd, 0, 0) {
                Some(v) => v,
                None => {
                    return Err(HorizonError::LocalCalendar);
                },
            };
            let workday = contains_day(&work_days, wd);
            let (ws, we) = if workday {
                let ws = match crate::dates::local_instant(
                    y,
                    mo,
                    d,
                    work_start.0 as u32,
                    work_start.1 as u32,
                ) {
                    Some(v) => v,
                    None => {
                        return Err(HorizonError::LocalCalendar);
                    },
                };
                let we = match crate::dates::local_instant(
                    y,
                    mo,
                    d,
                    work_end.0 as u32,
                    work_end.1 as u32,
                ) {
                    Some(v) => v,
                    None => {
                        return Err(HorizonError::LocalCalendar);
                    },
                };
                (ws, we)
            } else {
                (midnight, next_midnight)
            };
            if !seed_day(
                &mut sched.commitments,
                &mut last_start,
                workday,
                midnight,
                ws,
                we,
                next_midnight,
            ) {
                return Err(HorizonError::LocalCalendar);
            }
            date = next_date;
        }
        Ok(sched)
    }

    /// Builds the plan: merges the timeline, then walks it from the start
    /// of the horizon, filling every gap before the next fixed commitment
    /// with task slots (highest urgency first, dependencies gated) and
    /// short breaks, until the horizon is exhausted or no task is
    /// eligible.
    ///
    /// The final timeline is sorted and holds exactly the merged original
    /// commitments plus well-formed insertions (`inserted_ok`): breaks of
    /// at most `BREAK_TIME`, and task slots backed by the pool — in
    /// particular, every placed meta task leaves the loop fully consumed.
    /// When the merged input timeline was free of overlaps, so is the
    /// final one. Remaining time falls only through placements: a plain
    /// task's consumed time equals the summed length of the slots inserted
    /// for its id, second for second, and a meta task is consumed by one
    /// short placement (`consumption_accounted`). Every inserted break
    /// exactly fills its gap (`breaks_filled`).
    #[verifier::rlimit(100)]
    pub fn schedule(&mut self)
        requires
            old(self).wf(),
            crate::task::config_ok(old(self).tw_config),
        ensures
            final(self).wf(),
            final(self).start == old(self).start,
            final(self).end == old(self).end,
            final(self).tw_config == old(self).tw_config,
            final(self).tasks@.len() == old(self).tasks@.len(),
            forall|i: int|
                0 <= i < old(self).tasks@.len() ==> (#[trigger] final(self).tasks@[i]).task == old(
                    self,
                ).tasks@[i].task && 0 <= final(self).tasks@[i].remaining_time <= old(
                    self,
                ).tasks@[i].remaining_time,
            ({
                let s0 = simplify_spec(old(self).commitments@);
                let c = final(self).commitments@;
                &&& forall|x: Event| s0.contains(x) ==> c.contains(x)
                &&& forall|j: int|
                    0 <= j < c.len() ==> s0.contains(#[trigger] c[j]) || inserted_ok(
                        c[j],
                        final(self).tasks@,
                        old(self).start as int,
                    )
                &&& (adjacent_disjoint(s0) ==> adjacent_disjoint(c))
            }),
            all_blocked_proper(old(self).commitments@) ==> adjacent_disjoint(
                final(self).commitments@,
            ),
            consumption_accounted(
                final(self).commitments@,
                simplify_spec(old(self).commitments@),
                final(self).tasks@,
                old(self).tasks@,
            ),
            breaks_filled(
                final(self).commitments@,
                simplify_spec(old(self).commitments@),
                old(self).end as int,
            ),
            exists|stop: int|
                {
                    &&& old(self).start <= stop
                    &&& covers(final(self).commitments@, old(self).start as int, stop)
                    &&& (stop >= old(self).end || (forall|i: int|
                        !eligible_at(
                            final(self).tasks@,
                            final(self).outstanding_tasks@,
                            stop,
                            i,
                        )))
                },
    {
        proof {
            if all_blocked_proper(old(self).commitments@) {
                lemma_blocked_simplify_disjoint(old(self).commitments@);
            }
        }
        self.simplify();
        let ghost s0 = self.commitments@;
        let ghost tasks_init = self.tasks@;
        let start_ = self.start;
        let end_ = self.end;
        let mut index: usize = 0;
        let mut now: i64 = self.start;
        let ghost mut k: int = 0;
        let mut stalled = false;
        proof {
            assert(self.commitments@.skip(0) =~= s0.skip(0));
            assert forall|j: int| 0 <= j < s0.len() implies s0.contains(#[trigger] s0[j]) by {
                assert(s0[j] == s0[j]);
            }
            assert(consumption_accounted(self.commitments@, s0, self.tasks@, tasks_init)) by {
                reveal(consumption_accounted);
            }
            assert(breaks_filled(self.commitments@, s0, end_ as int)) by {
                reveal(breaks_filled);
            }
        }
        loop
            invariant_except_break
                !stalled,
            invariant
                sched_loop_ok(
                    self.commitments@,
                    s0,
                    self.tasks@,
                    self.outstanding_tasks@,
                    tasks_init,
                    start_ as int,
                    index as int,
                    k,
                    now as int,
                ),
                self.start == start_,
                self.end == end_,
                self.start == old(self).start,
                self.end == old(self).end,
                self.tw_config == old(self).tw_config,
                tasks_init == old(self).tasks@,
                s0 == simplify_spec(old(self).commitments@),
                instant_ok(end_ as int),
                crate::task::config_ok(self.tw_config),
                (index as int) <= self.commitments@.len(),
                consumption_accounted(self.commitments@, s0, self.tasks@, tasks_init),
                breaks_filled(self.commitments@, s0, end_ as int),
                ((index as int) > 0 && self.commitments@[index as int - 1].what is Break
                    && !s0.contains(self.commitments@[index as int - 1]))
                    ==> self.commitments@[index as int - 1].end == now,
                stalled ==> forall|i: int|
                    !eligible_at(self.tasks@, self.outstanding_tasks@, now as int, i),
            ensures
                now >= end_ || stalled,
            decreases sched_fuel(now as int, end_ as int),
        {
            let ghost now_iter = now as int;
            // sync: move past every commitment already begun
            loop
                invariant
                    sched_loop_ok(
                        self.commitments@,
                        s0,
                        self.tasks@,
                        self.outstanding_tasks@,
                        tasks_init,
                        start_ as int,
                        index as int,
                        k,
                        now as int,
                    ),
                    self.start == start_,
                    self.end == end_,
                    self.tw_config == old(self).tw_config,
                    now_iter <= now as int,
                    !stalled,
                    consumption_accounted(self.commitments@, s0, self.tasks@, tasks_init),
                    breaks_filled(self.commitments@, s0, end_ as int),
                    ((index as int) > 0 && self.commitments@[index as int - 1].what is Break
                        && !s0.contains(self.commitments@[index as int - 1]))
                        ==> self.commitments@[index as int - 1].end == now,
                ensures
                    (index as int) >= self.commitments@.len()
                        || self.commitments@[index as int].start > now,
                decreases self.commitments@.len() - index as int,
            {
                if index >= self.commitments.len() {
                    break ;
                }
                let ev_start = self.commitments[index].start;
                if ev_start > now {
                    break ;
                }
                let ev_end = self.commitments[index].end;
                let ghost c_pre = self.commitments@;
                if ev_end > now {
                    now = ev_end;
                }
                index = index + 1;
                proof {
                    k = k + 1;
                    assert(c_pre.skip((index - 1) as int) == s0.skip(k - 1));
                    assert(c_pre.skip(index as int) =~= c_pre.skip((index - 1) as int).skip(1));
                    assert(s0.skip(k) =~= s0.skip(k - 1).skip(1));
                    assert(c_pre[(index - 1) as int] == c_pre.skip((index - 1) as int)[0]);
                    assert(c_pre[(index - 1) as int] == s0[k - 1]);
                    assert(s0.contains(c_pre[(index - 1) as int]));
                }
            }
            if now >= end_ {
                break ;
            }
            let next_fixed: i64 = if index < self.commitments.len() {
                self.commitments[index].start
            } else {
                end_
            };
            let ghost nf = next_fixed as int;
            let mut gap: i64 = next_fixed - now;
            proof {
                assert(gap > 0);
                assert(instant_ok(nf));
            }
            // fill the gap before the next fixed commitment
            while gap > 0
                invariant_except_break
                    !stalled,
                invariant
                    sched_loop_ok(
                        self.commitments@,
                        s0,
                        self.tasks@,
                        self.outstanding_tasks@,
                        tasks_init,
                        start_ as int,
                        index as int,
                        k,
                        now as int,
                    ),
                    self.start == start_,
                    self.end == end_,
                    self.tw_config == old(self).tw_config,
                    crate::task::config_ok(self.tw_config),
                    gap >= 0,
                    now as int + gap as int == nf,
                    instant_ok(nf),
                    (index as int) < self.commitments@.len() ==> nf
                        == self.commitments@[index as int].start,
                    (index as int) >= self.commitments@.len() ==> nf == end_ as int,
                    now_iter < end_ as int,
                    nf > now_iter,
                    consumption_accounted(self.commitments@, s0, self.tasks@, tasks_init),
                    breaks_filled(self.commitments@, s0, end_ as int),
                    ((index as int) > 0 && self.commitments@[index as int - 1].what is Break
                        && !s0.contains(self.commitments@[index as int - 1]))
                        ==> self.commitments@[index as int - 1].end == now,
                    stalled ==> forall|i: int|
                        !eligible_at(self.tasks@, self.outstanding_tasks@, now as int, i),
                ensures
                    stalled || gap == 0,
                decreases gap,
            {
                if gap <= BREAK_TIME {
                    let ev = Event { start: now, end: now + gap, what: EventData::Break };
                    proof {
                        lemma_gap_insert(
                            self.commitments@,
                            s0,
                            self.tasks@,
                            self.outstanding_tasks@,
                            tasks_init,
                            start_ as int,
                            index as int,
                            k,
                            now as int,
                            nf,
                            ev,
                        );
                        lemma_accounted_insert_break(
                            self.commitments@,
                            s0,
                            self.tasks@,
                            tasks_init,
                            ev,
                            index as int,
                        );
                        lemma_breaks_filled_insert(
                            self.commitments@,
                            s0,
                            ev,
                            index as int,
                            now as int,
                            end_ as int,
                        );
                    }
                    let ghost c_pre = self.commitments@;
                    self.commitments.insert(index, ev);
                    let grown = self.commitments.len();
                    proof {
                        assert(index < grown);
                        if index + 1 < grown {
                            assert(self.commitments@[index + 1] == c_pre[index as int]);
                        }
                    }
                    index = index + 1;
                    now = now + gap;
                    gap = 0;
                } else {
                    match best_task_at_in(
                        &self.tasks,
                        &self.tw_config,
                        now,
                        &self.outstanding_tasks,
                    ) {
                        None => {
                            stalled = true;
                            break ;
                        },
                        Some(ti) => {
                            let meta = self.tasks[ti].is_meta();
                            let rem = self.tasks[ti].remaining_time;
                            let dur: i64 = if meta {
                                if gap < META_SLOT {
                                    gap
                                } else {
                                    META_SLOT
                                }
                            } else {
                                if rem < gap {
                                    rem
                                } else {
                                    gap
                                }
                            };
                            let uuid = self.tasks[ti].task.uuid.clone();
                            let name = self.tasks[ti].task.description.clone();
                            let consume_amt = if meta {
                                rem
                            } else {
                                dur
                            };
                            let ghost tasks_pre = self.tasks@;
                            consume_at(
                                &mut self.tasks,
                                &mut self.outstanding_tasks,
                                ti,
                                consume_amt,
                            );
                            proof {
                                lemma_inserted_ok_lower(
                                    self.commitments@,
                                    s0,
                                    tasks_pre,
                                    self.tasks@,
                                    start_ as int,
                                );
                            }
                            let ev = Event {
                                start: now,
                                end: now + dur,
                                what: EventData::Task { uuid, name, is_meta: meta },
                            };
                            proof {
                                assert(inserted_ok(ev, self.tasks@, start_ as int)) by {
                                    assert(self.tasks@[ti as int].task == tasks_pre[ti as int].task);
                                    assert(meta ==> self.tasks@[ti as int].remaining_time == 0);
                                }
                                lemma_gap_insert(
                                    self.commitments@,
                                    s0,
                                    self.tasks@,
                                    self.outstanding_tasks@,
                                    tasks_init,
                                    start_ as int,
                                    index as int,
                                    k,
                                    now as int,
                                    nf,
                                    ev,
                                );
                                lemma_accounted_insert_slot(
                                    self.commitments@,
                                    s0,
                                    tasks_pre,
                                    self.tasks@,
                                    tasks_init,
                                    ev,
                                    index as int,
                                    ti as int,
                                );
                                lemma_breaks_filled_insert(
                                    self.commitments@,
                                    s0,
                                    ev,
                                    index as int,
                                    now as int,
                                    end_ as int,
                                );
                            }
                            let ghost c_pre = self.commitments@;
                            self.commitments.insert(index, ev);
                            let grown = self.commitments.len();
                            proof {
                                assert(index < grown);
                                if index + 1 < grown {
                                    assert(self.commitments@[index + 1] == c_pre[index as int]);
                                }
                            }
                            index = index + 1;
                            now = now + dur;
                            gap = gap - dur;
                        },
                    }
                }
            }
            if stalled {
                break ;
            }
        }
        proof {
            let stop = now as int;
            assert(old(self).start <= stop && covers(
                self.commitments@,
                old(self).start as int,
                stop,
            ) && (stop >= old(self).end || (forall|i: int|
                !eligible_at(self.tasks@, self.outstanding_tasks@, stop, i))));
        }
    }
}

/// The number of whole minutes in a duration of seconds, rounded toward
/// zero.
pub open spec fn whole_minutes(secs: int) -> int {
    if secs >= 0 {
        secs / 60
    } else {
        -((-secs) / 60)
    }
}

/// `n` spaces.
pub open spec fn spaces(n: int) -> Seq<char>
    decreases n,
{
    if n <= 0 {
        Seq::empty()
    } else {
        spaces(n - 1).push(' ')
    }
}

/// The human-readable rendering of a duration: `"{N}m"` under sixty
/// minutes, else `"{H}h{M}m"`, or `"{H}h"` when the remainder is zero.
pub open spec fn human_time_spec(secs: int) -> Seq<char> {
    let m = whole_minutes(secs);
    if m < 60 {
        if m < 0 {
            seq!['-'] + crate::strutil::dec_digits(-m) + seq!['m']
        } else {
            crate::strutil::dec_digits(m) + seq!['m']
        }
    } else {
        let h = m / 60;
        let mm = m % 60;
        if mm > 0 {
            crate::strutil::dec_digits(h) + seq!['h'] + crate::strutil::dec_digits(mm)
                + seq!['m']
        } else {
            crate::strutil::dec_digits(h) + seq!['h']
        }
    }
}

/// Renders a duration of seconds as a human-readable time.
pub fn human_time(duration_secs: i64) -> (r: String)
    requires
        duration_secs != i64::MIN,
    ensures
        r@ == human_time_spec(duration_secs as int),
{
    let neg = duration_secs < 0;
    let total: u64 = if neg {
        (-duration_secs) as u64
    } else {
        duration_secs as u64
    };
    let minutes: u64 = total / 60;
    let mut s = String::new();
    proof {
        reveal_strlit("-");
        reveal_strlit("m");
        reveal_strlit("h");
    }
    if neg && minutes > 0 {
        s.append("-");
        crate::strutil::append_dec(&mut s, minutes);
        s.append("m");
        proof {
            assert(s@ =~= human_time_spec(duration_secs as int));
        }
    } else if minutes < 60 {
        crate::strutil::append_dec(&mut s, minutes);
        s.append("m");
        proof {
            assert(s@ =~= human_time_spec(duration_secs as int));
        }
    } else {
        let h = minutes / 60;
        let mm = minutes % 60;
        crate::strutil::append_dec(&mut s, h);
        s.append("h");
        if mm > 0 {
            crate::strutil::append_dec(&mut s, mm);
            s.append("m");
        }
        proof {
            assert(s@ =~= human_time_spec(duration_secs as int));
        }
    }
    s
}

impl Event {
    /// The rendered line for this commitment, given its pre-formatted
    /// start-time label: banner lines for blocked time and breaks, and a
    /// single plan line (with padding and a meta marker) for a task slot.
    pub open spec fn render_spec(self, when: Seq<char>) -> Seq<char> {
        let ht = human_time_spec(self.end - self.start);
        match self.what {
            EventData::Break => "---------- "@ + when + " ("@ + ht + " break) ----------\n"@,
            EventData::Blocked => "\n========== "@ + when + " ("@ + ht + " block) ==========\n"@,
            EventData::Task { uuid, name, is_meta } => {
                when + " ("@ + ht + ")"@ + spaces(3 - ht.len()) + " - "@ + (if is_meta {
                    "META - "@
                } else {
                    Seq::empty()
                }) + name@
            },
        }
    }

    /// Renders this commitment, given its pre-formatted start-time label.
    pub fn render_line(&self, when: &str) -> (r: String)
        requires
            -i64::MAX <= self.end - self.start <= i64::MAX,
        ensures
            r@ == self.render_spec(when@),
    {
        let ht = human_time(self.end - self.start);
        let mut s = String::new();
        match &self.what {
            EventData::Break => {
                s.append("---------- ");
                s.append(when);
                s.append(" (");
                s.append(ht.as_str());
                s.append(" break) ----------\n");
            },
            EventData::Blocked => {
                s.append("\n========== ");
                s.append(when);
                s.append(" (");
                s.append(ht.as_str());
                s.append(" block) ==========\n");
            },
            EventData::Task { uuid: _, name, is_meta } => {
                s.append(when);
                s.append(" (");
                s.append(ht.as_str());
                s.append(")");
                let htlen = ht.as_str().unicode_len();
                let mut pad: usize = if htlen >= 3 {
                    0
                } else {
                    3 - htlen
                };
                let ghost target = spaces(3 - ht@.len());
                let ghost before = s@;
                proof {
                    reveal_strlit(" ");
                    assert(before + spaces((3 - ht@.len()) - pad) =~= s@);
                }
                while pad > 0
                    invariant
                        pad <= 3,
                        pad as int <= (if ht@.len() >= 3 { 0int } else { 3 - ht@.len() }),
                        s@ == before + spaces((3 - ht@.len()) - pad),
                        " "@ == seq![' '],
                    decreases pad,
                {
                    s.append(" ");
                    proof {
                        assert(s@ =~= before + spaces((3 - ht@.len()) - (pad - 1)));
                    }
                    pad = pad - 1;
                }
                s.append(" - ");
                if *is_meta {
                    s.append("META - ");
                }
                s.append(name.as_str());
            },
        }
        proof {
            assert(s@ =~= self.render_spec(when@));
        }
        s
    }
}

/// Whether the pool holds a task with id `id`.
pub open spec fn seq_contains_pool_id(tasks: Seq<TimedTask>, id: Seq<char>) -> bool {
    exists|i: int| 0 <= i < tasks.len() && tasks[i].task.uuid@ == id
}

/// After replacing or appending the entry for `id` and patching the cache,
/// the cache is exact again.
proof fn add_task_outstanding_ok(
    tasks0: Seq<TimedTask>,
    out0: Seq<String>,
    tasks1: Seq<TimedTask>,
    out1: Seq<String>,
    id: Seq<char>,
    rem: int,
)
    requires
        pool_uuids_unique(tasks0),
        outstanding_matches_pool(tasks0, out0),
        ({
            let p = pool_find(tasks0, id);
            &&& 0 <= p <= tasks0.len()
            &&& p < tasks0.len() ==> tasks0[p].task.uuid@ == id
            &&& forall|j: int| 0 <= j < p ==> tasks0[j].task.uuid@ != id
            &&& tasks1.len() == if p < tasks0.len() {
                tasks0.len()
            } else {
                tasks0.len() + 1
            }
            &&& forall|i: int| 0 <= i < tasks1.len() && i != p ==> tasks1[i] == tasks0[i]
            &&& tasks1[p].task.uuid@ == id
            &&& tasks1[p].remaining_time == rem
        }),
        ({
            let had = seq_contains_id(out0, id);
            if had {
                if rem <= 0 {
                    exists|k: int|
                        0 <= k < out0.len() && out0[k]@ == id && out1 == out0.remove(k)
                } else {
                    out1 == out0
                }
            } else {
                if rem > 0 {
                    exists|s: String| s@ == id && out1 == out0.push(s)
                } else {
                    out1 == out0
                }
            }
        }),
    ensures
        outstanding_matches_pool(tasks1, out1),
{
    let p = pool_find(tasks0, id);
    let had = seq_contains_id(out0, id);
    // every cached id names a task with remaining time
    assert forall|k: int| 0 <= k < out1.len() implies pool_outstanding_has(
        tasks1,
        #[trigger] out1[k]@,
    ) by {
        if had && rem <= 0 {
            let kr = choose|kr: int|
                0 <= kr < out0.len() && out0[kr]@ == id && out1 == out0.remove(kr);
            let k0: int = if k < kr {
                k
            } else {
                k + 1
            };
            assert(out1[k] == out0[k0]);
            assert(out0[k0]@ != id);
            assert(pool_outstanding_has(tasks0, out0[k0]@));
            let w = choose|w: int|
                0 <= w < tasks0.len() && tasks0[w].task.uuid@ == out0[k0]@
                    && tasks0[w].remaining_time > 0;
            assert(w != p);
            assert(0 <= w < tasks1.len() && tasks1[w].task.uuid@ == out1[k]@
                && tasks1[w].remaining_time > 0);
        } else if !had && rem > 0 && k == out1.len() - 1 {
            assert(out1[k]@ == id);
            assert(0 <= p < tasks1.len() && tasks1[p].task.uuid@ == out1[k]@
                && tasks1[p].remaining_time > 0);
        } else {
            assert(out1[k] == out0[k]);
            assert(pool_outstanding_has(tasks0, out0[k]@));
            let w = choose|w: int|
                0 <= w < tasks0.len() && tasks0[w].task.uuid@ == out0[k]@
                    && tasks0[w].remaining_time > 0;
            if out0[k]@ == id {
                assert(had);
                assert(rem > 0);
                assert(p < tasks0.len()) by {
                    if p == tasks0.len() {
                        assert(tasks0[w].task.uuid@ != id);
                    }
                }
                assert(0 <= p < tasks1.len() && tasks1[p].task.uuid@ == out1[k]@
                    && tasks1[p].remaining_time > 0);
            } else {
                assert(w != p);
                assert(0 <= w < tasks1.len() && tasks1[w].task.uuid@ == out1[k]@
                    && tasks1[w].remaining_time > 0);
            }
        }
    }
    // every task with remaining time is cached
    assert forall|i: int|
        0 <= i < tasks1.len() && (#[trigger] tasks1[i]).remaining_time > 0 implies seq_contains_id(
        out1,
        tasks1[i].task.uuid@,
    ) by {
        if i == p {
            assert(rem > 0);
            if had {
                let k = choose|k: int| 0 <= k < out0.len() && out0[k]@ == id;
                assert(out1 == out0);
                assert(0 <= k < out1.len() && out1[k]@ == tasks1[p].task.uuid@);
            } else {
                let l = out1.len() - 1;
                assert(0 <= l < out1.len() && out1[l]@ == tasks1[p].task.uuid@);
            }
        } else {
            assert(tasks1[i] == tasks0[i]);
            assert(seq_contains_id(out0, tasks0[i].task.uuid@));
            let k0 = choose|k0: int| 0 <= k0 < out0.len() && out0[k0]@ == tasks0[i].task.uuid@;
            if had && rem <= 0 {
                let kr = choose|kr: int|
                    0 <= kr < out0.len() && out0[kr]@ == id && out1 == out0.remove(kr);
                assert(tasks0[i].task.uuid@ != id) by {
                    if tasks0[i].task.uuid@ == id {
                        assert(p < tasks0.len()) by {
                            if p == tasks0.len() {
                                assert(tasks0[i].task.uuid@ != id);
                            }
                        }
                        assert(tasks0[p].task.uuid@ == id);
                        assert(false);
                    }
                }
                assert(k0 != kr);
                if k0 < kr {
                    assert(0 <= k0 < out1.len() && out1[k0]@ == tasks1[i].task.uuid@);
                } else {
                    assert(0 <= k0 - 1 < out1.len() && out1[k0 - 1]@ == tasks1[i].task.uuid@);
                }
            } else if !had && rem > 0 {
                assert(0 <= k0 < out1.len() && out1[k0]@ == tasks1[i].task.uuid@);
            } else {
                assert(out1 == out0);
                assert(0 <= k0 < out1.len() && out1[k0]@ == tasks1[i].task.uuid@);
            }
        }
    }
    // the cache stays free of duplicates
    assert forall|k: int, l: int| 0 <= k < l < out1.len() implies out1[k]@ != out1[l]@ by {
        if had && rem <= 0 {
            let kr = choose|kr: int|
                0 <= kr < out0.len() && out0[kr]@ == id && out1 == out0.remove(kr);
            let k0: int = if k < kr {
                k
            } else {
                k + 1
            };
            let l0: int = if l < kr {
                l
            } else {
                l + 1
            };
            assert(out1[k] == out0[k0] && out1[l] == out0[l0]);
        } else if !had && rem > 0 {
            if l == out1.len() - 1 {
                assert(out1[l]@ == id);
                assert(out1[k] == out0[k]);
            } else {
                assert(out1[k] == out0[k] && out1[l] == out0[l]);
            }
        } else {
            assert(out1 == out0);
        }
    }
}

/// Whether pool task `i` is eligible for scheduling at `when`: it has work
/// time left, its wait date has passed, and none of its dependencies is
/// still outstanding.
pub open spec fn eligible_at(
    tasks: Seq<TimedTask>,
    out: Seq<String>,
    when: int,
    i: int,
) -> bool {
    &&& 0 <= i < tasks.len()
    &&& tasks[i].remaining_time > 0
    &&& crate::task::available_at_spec(tasks[i].task, when)
    &&& forall|d: int|
        0 <= d < tasks[i].task.depends.len() ==> !seq_contains_id(
            out,
            (#[trigger] tasks[i].task.depends[d])@,
        )
}

/// Whether `task` has a dependency that is still outstanding.
fn has_outstanding_dep(task: &Task, outstanding: &Vec<String>) -> (r: bool)
    ensures
        r == exists|d: int|
            0 <= d < task.depends.len() && seq_contains_id(
                outstanding@,
                (#[trigger] task.depends[d])@,
            ),
{
    let n = task.depends.len();
    let mut d: usize = 0;
    while d < n
        invariant
            d <= n,
            n == task.depends@.len(),
            forall|j: int|
                0 <= j < d ==> !seq_contains_id(outstanding@, (#[trigger] task.depends@[j])@),
        decreases n - d,
    {
        match ids_index_of(outstanding, &task.depends[d]) {
            Some(k) => {
                proof {
                    assert(seq_contains_id(outstanding@, task.depends@[d as int]@));
                }
                return true;
            },
            None => {},
        }
        d = d + 1;
    }
    false
}

/// Among the eligible tasks, the index of the one with the highest urgency
/// at `when`; ties go to the earliest-registered task. `None` exactly when
/// no task is eligible.
fn best_task_at_in(
    tasks: &Vec<TimedTask>,
    tw_config: &Config,
    when: i64,
    outstanding: &Vec<String>,
) -> (r: Option<usize>)
    requires
        pool_tasks_ok(tasks@),
        instant_ok(when as int),
        crate::task::config_ok(*tw_config),
    ensures
        match r {
            None => forall|i: int| !eligible_at(tasks@, outstanding@, when as int, i),
            Some(b) => {
                &&& eligible_at(tasks@, outstanding@, when as int, b as int)
                &&& forall|i: int|
                    eligible_at(tasks@, outstanding@, when as int, i)
                        ==> crate::task::urgency_at_micro(tasks@[i].task, when as int, *tw_config)
                        <= crate::task::urgency_at_micro(
                        tasks@[b as int].task,
                        when as int,
                        *tw_config,
                    )
                &&& forall|i: int|
                    eligible_at(tasks@, outstanding@, when as int, i)
                        && crate::task::urgency_at_micro(tasks@[i].task, when as int, *tw_config)
                        == crate::task::urgency_at_micro(
                        tasks@[b as int].task,
                        when as int,
                        *tw_config,
                    ) ==> b <= i
            },
        },
{
    let n = tasks.len();
    let mut best: Option<usize> = None;
    let mut best_urg: i128 = 0;
    let mut i: usize = 0;
    while i < n
        invariant
            i <= n,
            n == tasks@.len(),
            pool_tasks_ok(tasks@),
            instant_ok(when as int),
            crate::task::config_ok(*tw_config),
            match best {
                None => forall|j: int| 0 <= j < i ==> !eligible_at(tasks@, outstanding@, when as int, j),
                Some(b) => {
                    &&& b < i
                    &&& eligible_at(tasks@, outstanding@, when as int, b as int)
                    &&& best_urg == crate::task::urgency_at_micro(
                        tasks@[b as int].task,
                        when as int,
                        *tw_config,
                    )
                    &&& forall|j: int|
                        0 <= j < i && eligible_at(tasks@, outstanding@, when as int, j)
                            ==> crate::task::urgency_at_micro(tasks@[j].task, when as int, *tw_config)
                            <= best_urg
                    &&& forall|j: int|
                        0 <= j < i && eligible_at(tasks@, outstanding@, when as int, j)
                            && crate::task::urgency_at_micro(tasks@[j].task, when as int, *tw_config)
                            == best_urg ==> b <= j
                },
            },
        decreases n - i,
    {
        let candidate = tasks[i].available() && tasks[i].task.available_at(when)
            && !has_outstanding_dep(&tasks[i].task, outstanding);
        if candidate {
            let urg = tasks[i].task.urgency_at(when, tw_config);
            let take = match best {
                None => true,
                Some(_) => urg > best_urg,
            };
            if take {
                best = Some(i);
                best_urg = urg;
            }
        }
        i = i + 1;
    }
    best
}

impl Scheduler {
    /// Among the eligible tasks, the pool index of the one with the highest
    /// urgency at `when`; ties go to the earliest-registered task. `None`
    /// exactly when no task is eligible: in particular a task whose
    /// dependency is still outstanding is never returned.
    pub fn best_task_at(&self, when: i64) -> (r: Option<usize>)
        requires
            pool_tasks_ok(self.tasks@),
            instant_ok(when as int),
            crate::task::config_ok(self.tw_config),
        ensures
            match r {
                None => forall|i: int|
                    !eligible_at(self.tasks@, self.outstanding_tasks@, when as int, i),
                Some(b) => {
                    &&& eligible_at(self.tasks@, self.outstanding_tasks@, when as int, b as int)
                    &&& forall|i: int|
                        eligible_at(self.tasks@, self.outstanding_tasks@, when as int, i)
                            ==> crate::task::urgency_at_micro(
                            self.tasks@[i].task,
                            when as int,
                            self.tw_config,
                        ) <= crate::task::urgency_at_micro(
                            self.tasks@[b as int].task,
                            when as int,
                            self.tw_config,
                        )
                    &&& forall|i: int|
                        eligible_at(self.tasks@, self.outstanding_tasks@, when as int, i)
                            && crate::task::urgency_at_micro(
                            self.tasks@[i].task,
                            when as int,
                            self.tw_config,
                        ) == crate::task::urgency_at_micro(
                            self.tasks@[b as int].task,
                            when as int,
                            self.tw_config,
                        ) ==> b <= i
                },
            },
    {
        best_task_at_in(&self.tasks, &self.tw_config, when, &self.outstanding_tasks)
    }
}

/// Consumes `amount` of the remaining time of pool task `i`, flooring at
/// zero, and drops its id from the outstanding cache when it reaches zero.
fn consume_at(tasks: &mut Vec<TimedTask>, outstanding: &mut Vec<String>, i: usize, amount: i64)
    requires
        i < old(tasks)@.len(),
        amount >= 0,
        pool_uuids_unique(old(tasks)@),
        outstanding_matches_pool(old(tasks)@, old(outstanding)@),
        pool_tasks_ok(old(tasks)@),
    ensures
        final(tasks)@.len() == old(tasks)@.len(),
        forall|j: int| 0 <= j < old(tasks)@.len() && j != i ==> final(tasks)@[j] == old(tasks)@[j],
        final(tasks)@[i as int].task == old(tasks)@[i as int].task,
        final(tasks)@[i as int].remaining_time == if amount >= old(tasks)@[i as int].remaining_time {
            0int
        } else {
            old(tasks)@[i as int].remaining_time - amount
        },
        pool_uuids_unique(final(tasks)@),
        outstanding_matches_pool(final(tasks)@, final(outstanding)@),
        pool_tasks_ok(final(tasks)@),
        forall|id2: Seq<char>|
            id2 != old(tasks)@[i as int].task.uuid@ ==> (seq_contains_id(final(outstanding)@, id2)
                <==> seq_contains_id(old(outstanding)@, id2)),
{
    let ghost tasks0 = tasks@;
    let ghost out0 = outstanding@;
    tasks[i].checked_sub(amount);
    let ghost tasks1 = tasks@;
    let still = tasks[i].available();
    proof {
        assert(forall|j: int| 0 <= j < tasks0.len() && j != i ==> tasks1[j] == tasks0[j]);
        assert(pool_uuids_unique(tasks1));
        assert(pool_tasks_ok(tasks1));
    }
    if !still {
        let ghost id = tasks0[i as int].task.uuid@;
        match ids_index_of(&outstanding, &tasks[i].task.uuid) {
            Some(k) => {
                proof {
                    lemma_ids_remove(out0, k as int);
                }
                outstanding.remove(k);
            },
            None => {},
        }
        proof {
            let out1 = outstanding@;
            assert(outstanding_matches_pool(tasks1, out1)) by {
                consume_outstanding_ok(tasks0, out0, tasks1, out1, i as int);
            }
        }
    } else {
        proof {
            let out1 = outstanding@;
            assert(outstanding_matches_pool(tasks1, out1)) by {
                assert forall|k: int| 0 <= k < out1.len() implies pool_outstanding_has(
                    tasks1,
                    #[trigger] out1[k]@,
                ) by {
                    assert(pool_outstanding_has(tasks0, out0[k]@));
                    let w = choose|w: int|
                        0 <= w < tasks0.len() && tasks0[w].task.uuid@ == out0[k]@
                            && tasks0[w].remaining_time > 0;
                    if w == i {
                        assert(tasks1[i as int].task.uuid@ == out1[k]@
                            && tasks1[i as int].remaining_time > 0);
                    } else {
                        assert(tasks1[w].task.uuid@ == out1[k]@ && tasks1[w].remaining_time > 0);
                    }
                }
                assert forall|j: int|
                    0 <= j < tasks1.len() && (#[trigger] tasks1[j]).remaining_time > 0 implies
                    seq_contains_id(out1, tasks1[j].task.uuid@) by {
                    if j == i {
                        assert(tasks0[j].remaining_time > 0);
                    } else {
                        assert(tasks1[j] == tasks0[j]);
                    }
                    assert(seq_contains_id(out0, tasks0[j].task.uuid@));
                }
            }
        }
    }
}

/// After consuming the last remaining time of task `i` and dropping its id,
/// the cache is exact again.
proof fn consume_outstanding_ok(
    tasks0: Seq<TimedTask>,
    out0: Seq<String>,
    tasks1: Seq<TimedTask>,
    out1: Seq<String>,
    i: int,
)
    requires
        0 <= i < tasks0.len(),
        pool_uuids_unique(tasks0),
        outstanding_matches_pool(tasks0, out0),
        tasks1.len() == tasks0.len(),
        forall|j: int| 0 <= j < tasks0.len() && j != i ==> tasks1[j] == tasks0[j],
        tasks1[i].task.uuid@ == tasks0[i].task.uuid@,
        tasks1[i].remaining_time <= 0,
        ({
            if seq_contains_id(out0, tasks0[i].task.uuid@) {
                exists|k: int|
                    0 <= k < out0.len() && out0[k]@ == tasks0[i].task.uuid@ && out1 == out0.remove(
                        k,
                    )
            } else {
                out1 == out0
            }
        }),
    ensures
        outstanding_matches_pool(tasks1, out1),
{
    let id = tasks0[i].task.uuid@;
    let had = seq_contains_id(out0, id);
    assert forall|k: int| 0 <= k < out1.len() implies pool_outstanding_has(
        tasks1,
        #[trigger] out1[k]@,
    ) by {
        if had {
            let kr = choose|kr: int|
                0 <= kr < out0.len() && out0[kr]@ == id && out1 == out0.remove(kr);
            let k0: int = if k < kr {
                k
            } else {
                k + 1
            };
            assert(out1[k] == out0[k0]);
            assert(out0[k0]@ != id);
            assert(pool_outstanding_has(tasks0, out0[k0]@));
            let w = choose|w: int|
                0 <= w < tasks0.len() && tasks0[w].task.uuid@ == out0[k0]@
                    && tasks0[w].remaining_time > 0;
            assert(w != i);
            assert(0 <= w < tasks1.len() && tasks1[w].task.uuid@ == out1[k]@
                && tasks1[w].remaining_time > 0);
        } else {
            assert(out1[k] == out0[k]);
            assert(out0[k]@ != id) by {
                if out0[k]@ == id {
                    assert(had);
                }
            }
            assert(pool_outstanding_has(tasks0, out0[k]@));
            let w = choose|w: int|
                0 <= w < tasks0.len() && tasks0[w].task.uuid@ == out0[k]@
                    && tasks0[w].remaining_time > 0;
            assert(w != i);
            assert(0 <= w < tasks1.len() && tasks1[w].task.uuid@ == out1[k]@
                && tasks1[w].remaining_time > 0);
        }
    }
    assert forall|j: int|
        0 <= j < tasks1.len() && (#[trigger] tasks1[j]).remaining_time > 0 implies seq_contains_id(
        out1,
        tasks1[j].task.uuid@,
    ) by {
        assert(j != i);
        assert(tasks1[j] == tasks0[j]);
        assert(seq_contains_id(out0, tasks0[j].task.uuid@));
        let k0 = choose|k0: int| 0 <= k0 < out0.len() && out0[k0]@ == tasks0[j].task.uuid@;
        assert(tasks0[j].task.uuid@ != id);
        if had {
            let kr = choose|kr: int|
                0 <= kr < out0.len() && out0[kr]@ == id && out1 == out0.remove(kr);
            assert(k0 != kr);
            if k0 < kr {
                assert(0 <= k0 < out1.len() && out1[k0]@ == tasks1[j].task.uuid@);
            } else {
                assert(0 <= k0 - 1 < out1.len() && out1[k0 - 1]@ == tasks1[j].task.uuid@);
            }
        } else {
            assert(0 <= k0 < out1.len() && out1[k0]@ == tasks1[j].task.uuid@);
        }
    }
    assert forall|k: int, l: int| 0 <= k < l < out1.len() implies out1[k]@ != out1[l]@ by {
        if had {
            let kr = choose|kr: int|
                0 <= kr < out0.len() && out0[kr]@ == id && out1 == out0.remove(kr);
            let k0: int = if k < kr {
                k
            } else {
                k + 1
            };
            let l0: int = if l < kr {
                l
            } else {
                l + 1
            };
            assert(out1[k] == out0[k0] && out1[l] == out0[l0]);
        }
    }
}

/// What the scheduling loop is allowed to insert into a gap: a short break,
/// or a task slot backed by a pool task. A task slot carries its pool
/// task's id, description and meta flag; a meta slot is at most `META_SLOT`
/// long and its task has been consumed in full (its remaining time is
/// zero). The loop never fabricates blocked time.
pub open spec fn inserted_ok(ev: Event, tasks: Seq<TimedTask>, hstart: int) -> bool {
    match ev.what {
        EventData::Blocked => false,
        EventData::Break => hstart <= ev.start < ev.end && ev.end - ev.start <= BREAK_TIME,
        EventData::Task { uuid, name, is_meta } => {
            &&& hstart <= ev.start < ev.end
            &&& (is_meta ==> ev.end - ev.start <= META_SLOT)
            &&& exists|w: int|
                0 <= w < tasks.len() && (#[trigger] tasks[w]).task.uuid@ == uuid@
                    && tasks[w].task.description@ == name@ && is_meta == (
                tasks[w].task.depends.len() > 0) && (is_meta ==> tasks[w].remaining_time == 0)
        },
    }
}

/// Whether some commitment of `c` covers the instant `t`.
pub open spec fn instant_covered(c: Seq<Event>, t: int) -> bool {
    exists|j: int| 0 <= j < c.len() && (#[trigger] c[j]).start <= t < c[j].end
}

/// Whether the commitments of `c` cover every instant from `a` up to `b`.
pub open spec fn covers(c: Seq<Event>, a: int, b: int) -> bool {
    forall|t: int| a <= t < b ==> #[trigger] instant_covered(c, t)
}

/// Inserting a commitment keeps every covered instant covered.
proof fn lemma_insert_covers(c: Seq<Event>, ev: Event, idx: int, a: int, b: int)
    requires
        0 <= idx <= c.len(),
        covers(c, a, b),
    ensures
        covers(c.insert(idx, ev), a, b),
{
    let c2 = c.insert(idx, ev);
    assert forall|t: int| a <= t < b implies #[trigger] instant_covered(c2, t) by {
        assert(instant_covered(c, t));
        let j = choose|j: int| 0 <= j < c.len() && (#[trigger] c[j]).start <= t < c[j].end;
        if j < idx {
            assert(c2[j].start <= t < c2[j].end);
        } else {
            assert(c2[j + 1].start <= t < c2[j + 1].end);
        }
    }
}

/// The contribution of one commitment to the slot time of task id `id`.
pub open spec fn event_slot_time(ev: Event, id: Seq<char>) -> int {
    match ev.what {
        EventData::Task { uuid, .. } => if uuid@ == id {
            ev.end - ev.start
        } else {
            0
        },
        _ => 0,
    }
}

/// The total length of the task slots for id `id` in a commitment list.
pub open spec fn task_slot_time(c: Seq<Event>, id: Seq<char>) -> int
    decreases c.len(),
{
    if c.len() == 0 {
        0
    } else {
        event_slot_time(c[0], id) + task_slot_time(c.skip(1), id)
    }
}

/// Inserting a commitment adds exactly its own contribution to every id's
/// slot time.
proof fn lemma_task_slot_time_insert(c: Seq<Event>, ev: Event, k: int, id: Seq<char>)
    requires
        0 <= k <= c.len(),
    ensures
        task_slot_time(c.insert(k, ev), id) == task_slot_time(c, id) + event_slot_time(ev, id),
    decreases k,
{
    let c2 = c.insert(k, ev);
    if k == 0 {
        assert(c2[0] == ev);
        assert(c2.skip(1) =~= c);
    } else {
        assert(c2[0] == c[0]);
        assert(c2.skip(1) =~= c.skip(1).insert(k - 1, ev));
        lemma_task_slot_time_insert(c.skip(1), ev, k - 1, id);
    }
}

/// Consumption is accounted: a task's remaining time falls only through
/// the task slots inserted for its id since the merged input `s0` —
/// exactly, second for second, for a plain task; and through a single
/// short placement that consumes everything for a meta task.
#[verifier::opaque]
pub open spec fn consumption_accounted(
    c: Seq<Event>,
    s0: Seq<Event>,
    tasks: Seq<TimedTask>,
    tasks_init: Seq<TimedTask>,
) -> bool {
    forall|i: int|
        0 <= i < tasks.len() ==> {
            let placed = task_slot_time(c, (#[trigger] tasks[i]).task.uuid@) - task_slot_time(
                s0,
                tasks[i].task.uuid@,
            );
            if tasks[i].task.depends.len() > 0 {
                &&& 0 <= placed <= META_SLOT
                &&& (placed > 0 ==> tasks[i].remaining_time == 0)
                &&& (tasks[i].remaining_time < tasks_init[i].remaining_time ==> placed > 0)
            } else {
                placed == tasks_init[i].remaining_time - tasks[i].remaining_time
            }
        }
}

/// Inserting a break leaves every task's account unchanged.
proof fn lemma_accounted_insert_break(
    c: Seq<Event>,
    s0: Seq<Event>,
    tasks: Seq<TimedTask>,
    tasks_init: Seq<TimedTask>,
    ev: Event,
    idx: int,
)
    requires
        consumption_accounted(c, s0, tasks, tasks_init),
        0 <= idx <= c.len(),
        ev.what is Break,
    ensures
        consumption_accounted(c.insert(idx, ev), s0, tasks, tasks_init),
{
    reveal(consumption_accounted);
    assert forall|i: int| 0 <= i < tasks.len() implies {
        let placed = task_slot_time(c.insert(idx, ev), (#[trigger] tasks[i]).task.uuid@)
            - task_slot_time(s0, tasks[i].task.uuid@);
        if tasks[i].task.depends.len() > 0 {
            &&& 0 <= placed <= META_SLOT
            &&& (placed > 0 ==> tasks[i].remaining_time == 0)
            &&& (tasks[i].remaining_time < tasks_init[i].remaining_time ==> placed > 0)
        } else {
            placed == tasks_init[i].remaining_time - tasks[i].remaining_time
        }
    } by {
        lemma_task_slot_time_insert(c, ev, idx, tasks[i].task.uuid@);
    }
}

/// Inserting the slot for task `ti` and consuming the matching time keeps
/// every task's account exact.
proof fn lemma_accounted_insert_slot(
    c: Seq<Event>,
    s0: Seq<Event>,
    tasks0: Seq<TimedTask>,
    tasks1: Seq<TimedTask>,
    tasks_init: Seq<TimedTask>,
    ev: Event,
    idx: int,
    ti: int,
)
    requires
        consumption_accounted(c, s0, tasks0, tasks_init),
        pool_uuids_unique(tasks0),
        0 <= idx <= c.len(),
        0 <= ti < tasks0.len(),
        tasks1.len() == tasks0.len(),
        tasks_init.len() == tasks0.len(),
        forall|j: int| 0 <= j < tasks0.len() && j != ti ==> tasks1[j] == tasks0[j],
        tasks1[ti].task == tasks0[ti].task,
        ({
            match ev.what {
                EventData::Task { uuid, .. } => uuid@ == tasks0[ti].task.uuid@,
                _ => false,
            }
        }),
        0 <= tasks0[ti].remaining_time <= tasks_init[ti].remaining_time,
        ({
            if tasks0[ti].task.depends.len() > 0 {
                &&& tasks0[ti].remaining_time > 0
                &&& tasks1[ti].remaining_time == 0
                &&& 0 < ev.end - ev.start <= META_SLOT
            } else {
                &&& 0 < ev.end - ev.start <= tasks0[ti].remaining_time
                &&& tasks1[ti].remaining_time == tasks0[ti].remaining_time - (ev.end - ev.start)
            }
        }),
    ensures
        consumption_accounted(c.insert(idx, ev), s0, tasks1, tasks_init),
{
    reveal(consumption_accounted);
    let c2 = c.insert(idx, ev);
    assert forall|i: int| 0 <= i < tasks1.len() implies {
        let placed = task_slot_time(c2, (#[trigger] tasks1[i]).task.uuid@) - task_slot_time(
            s0,
            tasks1[i].task.uuid@,
        );
        if tasks1[i].task.depends.len() > 0 {
            &&& 0 <= placed <= META_SLOT
            &&& (placed > 0 ==> tasks1[i].remaining_time == 0)
            &&& (tasks1[i].remaining_time < tasks_init[i].remaining_time ==> placed > 0)
        } else {
            placed == tasks_init[i].remaining_time - tasks1[i].remaining_time
        }
    } by {
        lemma_task_slot_time_insert(c, ev, idx, tasks1[i].task.uuid@);
        if i == ti {
            if tasks0[ti].task.depends.len() > 0 {
                // a meta task could not have been placed before: its
                // remaining time was still positive
                assert(task_slot_time(c, tasks0[ti].task.uuid@) - task_slot_time(
                    s0,
                    tasks0[ti].task.uuid@,
                ) == 0);
            }
        } else {
            assert(tasks1[i] == tasks0[i]);
            assert(tasks0[i].task.uuid@ != tasks0[ti].task.uuid@);
            assert(event_slot_time(ev, tasks1[i].task.uuid@) == 0);
        }
    }
}

/// Every break the loop inserted exactly fills its gap: it ends where the
/// next commitment starts, or at the horizon end when nothing follows it.
#[verifier::opaque]
pub open spec fn breaks_filled(c: Seq<Event>, s0: Seq<Event>, hend: int) -> bool {
    forall|j: int|
        0 <= j < c.len() && (#[trigger] c[j]).what is Break && !s0.contains(c[j]) ==> (if j + 1
            < c.len() {
            c[j + 1].start == c[j].end
        } else {
            c[j].end == hend
        })
}

/// Inserting a gap filler `[now, ...)` right at the split point keeps
/// every inserted break exactly filling its gap, provided a break just
/// before the split point ends at `now`, and a break being inserted ends
/// exactly at the next commitment's start (or the horizon end).
proof fn lemma_breaks_filled_insert(
    c: Seq<Event>,
    s0: Seq<Event>,
    ev: Event,
    idx: int,
    now: int,
    hend: int,
)
    requires
        breaks_filled(c, s0, hend),
        0 <= idx <= c.len(),
        ev.start == now,
        (idx > 0 && c[idx - 1].what is Break && !s0.contains(c[idx - 1])) ==> c[idx - 1].end
            == now,
        ev.what is Break ==> ev.end == (if idx < c.len() {
            c[idx].start as int
        } else {
            hend
        }),
        idx == c.len() ==> now < hend,
    ensures
        breaks_filled(c.insert(idx, ev), s0, hend),
        (idx + 1 > 0 && c.insert(idx, ev)[idx + 1 - 1].what is Break && !s0.contains(
            c.insert(idx, ev)[idx + 1 - 1],
        )) ==> c.insert(idx, ev)[idx + 1 - 1].end == ev.end,
{
    reveal(breaks_filled);
    let c2 = c.insert(idx, ev);
    assert forall|j: int|
        0 <= j < c2.len() && (#[trigger] c2[j]).what is Break && !s0.contains(c2[j]) implies (if j
        + 1 < c2.len() {
        c2[j + 1].start == c2[j].end
    } else {
        c2[j].end == hend
    }) by {
        if j < idx - 1 {
            assert(c2[j] == c[j] && c2[j + 1] == c[j + 1]);
        } else if j == idx - 1 {
            assert(c2[j] == c[j]);
            assert(c2[j + 1] == ev);
            assert(c[j].end == now);
            if j + 1 == c.len() {
                // a break already ending at the horizon leaves no gap to
                // fill, so the loop could not be inserting here
                assert(c[j].end == hend);
                assert(false);
            }
        } else if j == idx {
            assert(c2[j] == ev);
            if idx < c.len() {
                assert(c2[j + 1] == c[idx]);
            }
        } else {
            assert(c2[j] == c[j - 1]);
            if j + 1 < c2.len() {
                assert(c2[j + 1] == c[j]);
            }
        }
    }
}

/// The joint invariant of the scheduling loop: the timeline splits into a
/// finalized prefix (all before `now`) and an untouched suffix of the
/// simplified input, stays sorted, in range and (when the input was
/// disjoint) disjoint, holds nothing but original commitments and
/// well-formed insertions, and the pool only ever loses remaining time.
pub open spec fn sched_loop_ok(
    c: Seq<Event>,
    s0: Seq<Event>,
    tasks: Seq<TimedTask>,
    out: Seq<String>,
    tasks_init: Seq<TimedTask>,
    hstart: int,
    idx: int,
    k: int,
    now: int,
) -> bool {
    &&& 0 <= idx <= c.len()
    &&& 0 <= k <= s0.len()
    &&& c.skip(idx) == s0.skip(k)
    &&& sorted_by_start(c)
    &&& events_in_range(c)
    &&& forall|j: int| 0 <= j < idx ==> (#[trigger] c[j]).start <= now && c[j].end <= now
    &&& covers(c, hstart, now)
    &&& forall|x: Event| s0.contains(x) ==> c.contains(x)
    &&& forall|j: int|
        0 <= j < c.len() ==> s0.contains(#[trigger] c[j]) || inserted_ok(c[j], tasks, hstart)
    &&& (adjacent_disjoint(s0) ==> adjacent_disjoint(c))
    &&& pool_uuids_unique(tasks)
    &&& outstanding_matches_pool(tasks, out)
    &&& pool_tasks_ok(tasks)
    &&& tasks.len() == tasks_init.len()
    &&& forall|i: int|
        0 <= i < tasks.len() ==> (#[trigger] tasks[i]).task == tasks_init[i].task && 0 <= tasks[i].remaining_time
            <= tasks_init[i].remaining_time
    &&& hstart <= now
    &&& instant_ok(now)
    &&& instant_ok(hstart)
}

/// The time still to be planned; the scheduling loop's termination measure.
pub open spec fn sched_fuel(now: int, hend: int) -> int {
    if now >= hend {
        0
    } else {
        hend - now
    }
}

/// Inserting an event preserves membership of everything already present.
proof fn lemma_insert_contains(c: Seq<Event>, ev: Event, idx: int)
    requires
        0 <= idx <= c.len(),
    ensures
        forall|x: Event| c.contains(x) ==> #[trigger] c.insert(idx, ev).contains(x),
{
    let c2 = c.insert(idx, ev);
    assert forall|x: Event| c.contains(x) implies #[trigger] c2.contains(x) by {
        let w = choose|w: int| 0 <= w < c.len() && c[w] == x;
        if w < idx {
            assert(c2[w] == x);
        } else {
            assert(c2[w + 1] == x);
        }
    }
}

/// Lowering remaining times (never below zero) preserves `inserted_ok` for
/// every already-placed commitment.
proof fn lemma_inserted_ok_lower(
    c: Seq<Event>,
    s0: Seq<Event>,
    tasks0: Seq<TimedTask>,
    tasks1: Seq<TimedTask>,
    hstart: int,
)
    requires
        forall|j: int|
            0 <= j < c.len() ==> s0.contains(#[trigger] c[j]) || inserted_ok(c[j], tasks0, hstart),
        tasks1.len() == tasks0.len(),
        forall|i: int| 0 <= i < tasks0.len() ==> (#[trigger] tasks1[i]).task == tasks0[i].task,
        forall|i: int|
            0 <= i < tasks0.len() ==> 0 <= (#[trigger] tasks1[i]).remaining_time
                <= tasks0[i].remaining_time,
    ensures
        forall|j: int|
            0 <= j < c.len() ==> s0.contains(#[trigger] c[j]) || inserted_ok(c[j], tasks1, hstart),
{
    assert forall|j: int| 0 <= j < c.len() implies s0.contains(#[trigger] c[j]) || inserted_ok(
        c[j],
        tasks1,
        hstart,
    ) by {
        if !s0.contains(c[j]) {
            match c[j].what {
                EventData::Task { uuid, name, is_meta } => {
                    let w = choose|w: int|
                        0 <= w < tasks0.len() && (#[trigger] tasks0[w]).task.uuid@ == uuid@
                            && tasks0[w].task.description@ == name@ && is_meta == (
                        tasks0[w].task.depends.len() > 0) && (is_meta ==> tasks0[w].remaining_time
                            == 0);
                    assert(0 <= w < tasks1.len() && tasks1[w].task.uuid@ == uuid@
                        && tasks1[w].task.description@ == name@ && is_meta == (
                    tasks1[w].task.depends.len() > 0) && (is_meta ==> tasks1[w].remaining_time
                        == 0));
                },
                _ => {},
            }
        }
    }
}

/// Inserting a well-formed gap filler `[now, end)` right at the split point
/// of the scheduling loop re-establishes the loop invariant, with the
/// prefix grown by one and `now` advanced to its end.
#[verifier::rlimit(50)]
proof fn lemma_gap_insert(
    c: Seq<Event>,
    s0: Seq<Event>,
    tasks: Seq<TimedTask>,
    out: Seq<String>,
    tasks_init: Seq<TimedTask>,
    hstart: int,
    idx: int,
    k: int,
    now: int,
    nf: int,
    ev: Event,
)
    requires
        sched_loop_ok(c, s0, tasks, out, tasks_init, hstart, idx, k, now),
        idx < c.len() ==> nf <= c[idx].start,
        ev.start == now,
        now < ev.end <= nf,
        instant_ok(nf),
        inserted_ok(ev, tasks, hstart),
    ensures
        sched_loop_ok(
            c.insert(idx, ev),
            s0,
            tasks,
            out,
            tasks_init,
            hstart,
            idx + 1,
            k,
            ev.end as int,
        ),
        idx + 1 < c.insert(idx, ev).len() ==> nf <= c.insert(idx, ev)[idx + 1].start,
{
    let c2 = c.insert(idx, ev);
    assert(c2.skip(idx + 1) =~= c.skip(idx));
    assert(sorted_by_start(c2)) by {
        assert forall|i: int, j: int| 0 <= i <= j < c2.len() implies c2[i].start
            <= c2[j].start by {
            let i0: int = if i <= idx {
                i
            } else {
                i - 1
            };
            let j0: int = if j <= idx {
                j
            } else {
                j - 1
            };
            if i < idx {
                assert(c2[i] == c[i]);
            }
            if j > idx {
                assert(c2[j] == c[j - 1]);
                assert(c[idx].start <= c[j - 1].start);
            }
            if i == idx && j == idx {
            }
        }
    }
    assert(events_in_range(c2)) by {
        insert_in_range(c, ev, idx);
    }
    assert forall|j: int| 0 <= j < idx + 1 implies (#[trigger] c2[j]).start <= ev.end && c2[j].end
        <= ev.end by {
        if j < idx {
            assert(c2[j] == c[j]);
        }
    }
    assert forall|x: Event| s0.contains(x) implies c2.contains(x) by {
        lemma_insert_contains(c, ev, idx);
    }
    assert(covers(c2, hstart, ev.end as int)) by {
        lemma_insert_covers(c, ev, idx, hstart, now);
        assert forall|t: int| hstart <= t < ev.end implies #[trigger] instant_covered(c2, t) by {
            if t >= now {
                assert(c2[idx].start <= t < c2[idx].end);
            }
        }
    }
    assert forall|j: int| 0 <= j < c2.len() implies s0.contains(#[trigger] c2[j]) || inserted_ok(
        c2[j],
        tasks,
        hstart,
    ) by {
        if j < idx {
            assert(c2[j] == c[j]);
        } else if j > idx {
            assert(c2[j] == c[j - 1]);
        }
    }
    if adjacent_disjoint(s0) {
        assert forall|j: int| 0 <= j < c2.len() - 1 implies (#[trigger] c2[j]).end <= c2[j
            + 1].start by {
            if j < idx - 1 {
                assert(c2[j] == c[j] && c2[j + 1] == c[j + 1]);
            } else if j == idx - 1 {
                assert(c2[j] == c[j] && c2[j + 1] == ev);
            } else if j == idx {
                assert(c2[j] == ev && c2[j + 1] == c[idx]);
            } else {
                assert(c2[j] == c[j - 1] && c2[j + 1] == c[j]);
            }
        }
    }
    if idx + 1 < c2.len() {
        assert(c2[idx + 1] == c[idx]);
    }
}

/// Inserting an in-range commitment keeps the timeline in range.
proof fn insert_in_range(s: Seq<Event>, ev: Event, k: int)
    requires
        events_in_range(s),
        instant_ok(ev.start as int),
        instant_ok(ev.end as int),
        0 <= k <= s.len(),
    ensures
        events_in_range(s.insert(k, ev)),
{
    let s2 = s.insert(k, ev);
    assert forall|j: int| 0 <= j < s2.len() implies instant_ok(#[trigger] s2[j].start as int)
        && instant_ok(s2[j].end as int) by {
        if j < k {
            assert(s2[j] == s[j]);
        } else if j > k {
            assert(s2[j] == s[j - 1]);
        }
    }
}

/// Inserting at the insertion point keeps a sorted list sorted.
proof fn block_insert_sorted(s: Seq<Event>, ev: Event, k: int)
    requires
        sorted_by_start(s),
        k == insertion_point(s, ev.start as int),
    ensures
        sorted_by_start(s.insert(k, ev)),
{
    lemma_insertion_point(s, ev.start as int);
    let s2 = s.insert(k, ev);
    assert forall|i: int, j: int| 0 <= i <= j < s2.len() implies s2[i].start <= s2[j].start by {
        if i < k && j < k {
            assert(s2[i] == s[i] && s2[j] == s[j]);
        } else if i < k && j == k {
            assert(s2[i] == s[i] && s[i].start <= ev.start);
        } else if i < k && j > k {
            assert(s2[i] == s[i] && s2[j] == s[j - 1] && s[i].start <= s[j - 1].start);
        } else if i == k && j == k {
        } else if i == k && j > k {
            assert(s2[j] == s[j - 1]);
            assert(k < s.len() ==> s[k].start > ev.start);
            assert(s[k].start <= s[j - 1].start);
        } else {
            assert(s2[i] == s[i - 1] && s2[j] == s[j - 1]);
        }
    }
}

} // verus!
