//! Engine types and the background task queue of the sleep engine.
//!
//! Tasks wait in a queue ordered by priority; processing takes the task of
//! highest priority first (among equal priorities, the one queued last).

use std::collections::HashMap;
use vstd::prelude::*;

verus! {

/// Task type for background processing.
#[derive(Clone, Debug, PartialEq, Eq, Structural)]
pub enum TaskType {
    /// KeyGraph analysis
    KeygraphAnalysis,
    /// KDF relearning
    KdfRelearn,
    /// Crystallization
    Crystallization,
    /// Consolidation
    Consolidation,
    /// Unknown task
    Unknown,
}

/// Node type for knowledge nodes.
#[derive(Clone, Debug, PartialEq, Eq, Structural)]
pub enum NodeType {
    /// Raw unprocessed node
    Raw,
    /// Processed node
    Processed,
    /// Crystallized stable node
    Crystal,
    /// Initial knowledge node
    Genesis,
}

/// Seconds since the Unix epoch by the system clock (zero when the clock
/// reads before the epoch). Calls `std::time::SystemTime::now`; nothing is
/// stated of the value, which depends on the time.
#[verifier::external_body]
fn unix_time_secs() -> u64 {
    std::time::SystemTime::now().duration_since(std::time::UNIX_EPOCH).unwrap_or_default().as_secs()
}

/// Heavy task for background processing.
#[derive(Clone, Debug)]
pub struct HeavyTask {
    /// Task type
    pub task_type: TaskType,
    /// Target node ID
    pub node_id: Option<String>,
    /// Priority
    pub priority: u32,
    /// Created timestamp
    pub created_at: u64,
    /// Metadata
    pub metadata: HashMap<String, String>,
}

impl HeavyTask {
    /// A task of the given type created at `now` (seconds since the Unix
    /// epoch): no target node, priority 0, no metadata.
    pub fn new_at(task_type: TaskType, now: u64) -> (t: Self)
        ensures
            t.task_type == task_type,
            t.node_id is None,
            t.priority == 0,
            t.created_at == now,
            t.metadata@ == Map::<String, String>::empty(),
    {
        HeavyTask { task_type, node_id: None, priority: 0, created_at: now, metadata: HashMap::new() }
    }

    /// A task of the given type stamped with the current time read from the
    /// system clock: no target node, priority 0, no metadata.
    pub fn new(task_type: TaskType) -> (t: Self)
        ensures
            t.task_type == task_type,
            t.node_id is None,
            t.priority == 0,
            t.metadata@ == Map::<String, String>::empty(),
    {
        let now = unix_time_secs();
        HeavyTask::new_at(task_type, now)
    }
}

/// Outcome of one processed task.
#[derive(Clone, Debug)]
pub struct TaskResult {
    /// Task type
    pub task_type: TaskType,
    /// Success flag
    pub success: bool,
    /// Message
    pub message: String,
}

/// Sleep engine statistics.
#[derive(Clone, Debug)]
pub struct SleepEngineStats {
    /// Tasks processed
    pub tasks_processed: u64,
    /// Crystallizations performed
    pub crystallizations: u64,
}

impl Default for SleepEngineStats {
    fn default() -> (s: Self)
        ensures
            s.tasks_processed == 0,
            s.crystallizations == 0,
    {
        SleepEngineStats { tasks_processed: 0, crystallizations: 0 }
    }
}

/// Whether a task of this type succeeds: the three kinds the engine knows.
pub open spec fn task_succeeds(t: TaskType) -> bool {
    t == TaskType::Crystallization || t == TaskType::KdfRelearn || t == TaskType::Consolidation
}

/// The message reported for a task of this type.
pub open spec fn task_message(t: TaskType) -> Seq<char> {
    match t {
        TaskType::Crystallization => "Crystallization completed"@,
        TaskType::KdfRelearn => "Relearn completed"@,
        TaskType::Consolidation => "Consolidation completed"@,
        _ => "Unknown task type"@,
    }
}

/// Where a task of priority `p` goes: before the first task of strictly
/// higher priority, or at the end.
pub open spec fn insertion_point(q: Seq<HeavyTask>, p: u32) -> int
    decreases q.len(),
{
    if q.len() == 0 {
        0
    } else if q[0].priority > p {
        0
    } else {
        1 + insertion_point(q.drop_first(), p)
    }
}

/// Priorities never decrease along the queue.
pub open spec fn priority_sorted(q: Seq<HeavyTask>) -> bool {
    forall|i: int, j: int| 0 <= i <= j < q.len() ==> q[i].priority <= q[j].priority
}

/// Number of crystallization tasks in `q`.
pub open spec fn count_crystallizations(q: Seq<HeavyTask>) -> nat
    decreases q.len(),
{
    if q.len() == 0 {
        0
    } else {
        count_crystallizations(q.drop_last()) + if q.last().task_type == TaskType::Crystallization {
            1nat
        } else {
            0nat
        }
    }
}

/// Background optimization engine: the task queue and its statistics.
pub struct KDFSleepEngine {
    /// Task queue, ordered by priority; the next task is the last one.
    task_queue: Vec<HeavyTask>,
    /// Max iterations per optimization
    pub max_iterations: u64,
    /// Statistics
    stats: SleepEngineStats,
}

impl KDFSleepEngine {
    /// The queued tasks; the next to run is the last.
    pub closed spec fn pending(&self) -> Seq<HeavyTask> {
        self.task_queue@
    }

    /// The iteration limit it was made with.
    pub closed spec fn iteration_limit(&self) -> u64 {
        self.max_iterations
    }

    /// Tasks processed so far.
    pub closed spec fn processed_count(&self) -> nat {
        self.stats.tasks_processed as nat
    }

    /// Crystallizations performed so far.
    pub closed spec fn crystallization_count(&self) -> nat {
        self.stats.crystallizations as nat
    }

    /// The queue is ordered by priority.
    pub open spec fn wf(&self) -> bool {
        priority_sorted(self.pending())
    }

    /// An engine with an empty queue and zero statistics.
    pub fn new(max_iterations: u64) -> (e: Self)
        ensures
            e.wf(),
            e.pending() == Seq::<HeavyTask>::empty(),
            e.processed_count() == 0,
            e.crystallization_count() == 0,
            e.iteration_limit() == max_iterations,
    {
        KDFSleepEngine {
            task_queue: Vec::new(),
            max_iterations,
            stats: SleepEngineStats { tasks_processed: 0, crystallizations: 0 },
        }
    }

    /// Queue a task behind every task of no higher priority.
    pub fn queue_task(&mut self, task: HeavyTask)
        ensures
            final(self).pending() == old(self).pending().insert(
                insertion_point(old(self).pending(), task.priority),
                task,
            ),
            old(self).wf() ==> final(self).wf(),
            final(self).processed_count() == old(self).processed_count(),
            final(self).crystallization_count() == old(self).crystallization_count(),
            final(self).iteration_limit() == old(self).iteration_limit(),
    {
        let ghost q = self.task_queue@;
        let mut pos: usize = 0;
        assert(q.skip(0) =~= q);
        while pos < self.task_queue.len() && self.task_queue[pos].priority <= task.priority
            invariant
                self.task_queue@ == q,
                pos <= q.len(),
                forall|i: int| 0 <= i < pos ==> q[i].priority <= task.priority,
                insertion_point(q, task.priority) == pos + insertion_point(q.skip(pos as int), task.priority),
            decreases q.len() - pos,
        {
            proof {
                assert(q.skip(pos as int).drop_first() =~= q.skip(pos + 1));
            }
            pos = pos + 1;
        }
        proof {
            if pos < q.len() {
                assert(q.skip(pos as int)[0] == q[pos as int]);
            } else {
                assert(q.skip(pos as int).len() == 0);
            }
        }
        self.task_queue.insert(pos, task);
        proof {
            let r = self.task_queue@;
            if priority_sorted(q) {
                assert forall|i: int, j: int| 0 <= i <= j < r.len() implies r[i].priority <= r[j].priority by {
                    if i < pos && j > pos {
                        assert(r[j] == q[j - 1]);
                        assert(q[j - 1].priority > task.priority || q[j - 1].priority >= q[i].priority);
                    } else if i < pos && j == pos {
                    } else if i == pos && j > pos {
                        assert(r[j] == q[j - 1]);
                        assert(q[pos as int].priority > task.priority);
                    } else if i > pos {
                        assert(r[i] == q[i - 1] && r[j] == q[j - 1]);
                    }
                }
            }
        }
    }

    /// Process up to `max_tasks` tasks, highest priority first.
    pub fn process_tasks(&mut self, max_tasks: usize) -> (results: Vec<TaskResult>)
        requires
            old(self).processed_count() + old(self).pending().len() <= u64::MAX,
            old(self).crystallization_count() + old(self).pending().len() <= u64::MAX,
        ensures
            results.len() == if max_tasks < old(self).pending().len() {
                max_tasks as int
            } else {
                old(self).pending().len() as int
            },
            final(self).pending() == old(self).pending().take(
                old(self).pending().len() - results.len(),
            ),
            forall|i: int|
                0 <= i < results.len() ==> {
                    let t = #[trigger] old(self).pending()[old(self).pending().len() - 1 - i];
                    &&& results[i].task_type == t.task_type
                    &&& results[i].success == task_succeeds(t.task_type)
                    &&& results[i].message@ == task_message(t.task_type)
                },
            final(self).processed_count() == old(self).processed_count() + results.len(),
            final(self).crystallization_count() == old(self).crystallization_count()
                + count_crystallizations(old(self).pending().skip(old(self).pending().len() - results.len())),
            old(self).wf() ==> final(self).wf(),
            final(self).iteration_limit() == old(self).iteration_limit(),
    {
        let ghost q = self.task_queue@;
        let ghost start_stats = self.stats;
        let mut results: Vec<TaskResult> = Vec::new();
        let mut done: usize = 0;
        while done < max_tasks && self.task_queue.len() > 0
            invariant
                done <= max_tasks,
                done <= q.len(),
                results.len() == done,
                self.task_queue@ == q.take(q.len() - done),
                self.max_iterations == old(self).max_iterations,
                q == old(self).pending(),
                start_stats == old(self).stats,
                start_stats.tasks_processed + q.len() <= u64::MAX,
                start_stats.crystallizations + q.len() <= u64::MAX,
                self.stats.tasks_processed == start_stats.tasks_processed + done,
                self.stats.crystallizations == start_stats.crystallizations + count_crystallizations(q.skip(q.len() - done)),
                count_crystallizations(q.skip(q.len() - done)) <= done,
                forall|i: int|
                    0 <= i < done ==> {
                        let t = #[trigger] q[q.len() - 1 - i];
                        &&& results[i].task_type == t.task_type
                        &&& results[i].success == task_succeeds(t.task_type)
                        &&& results[i].message@ == task_message(t.task_type)
                    },
            decreases q.len() - done,
        {
            let task = self.task_queue.pop().unwrap();
            proof {
                assert(task == q[q.len() - 1 - done]);
                let sfx = q.skip(q.len() - (done + 1));
                assert(sfx.drop_first() =~= q.skip(q.len() - done));
                lemma_count_crystallizations_front(sfx);
            }
            let result = self.process_task(&task);
            results.push(result);
            self.stats.tasks_processed = self.stats.tasks_processed + 1;
            done = done + 1;
            assert(q.take(q.len() - (done - 1)).drop_last() =~= q.take(q.len() - done));
        }
        proof {
            if done < max_tasks {
                assert(q.len() - done == 0);
            }
        }
        results
    }

    /// Run one task.
    fn process_task(&mut self, task: &HeavyTask) -> (r: TaskResult)
        requires
            old(self).stats.crystallizations < u64::MAX,
        ensures
            r.task_type == task.task_type,
            r.success == task_succeeds(task.task_type),
            r.message@ == task_message(task.task_type),
            final(self).task_queue == old(self).task_queue,
            final(self).max_iterations == old(self).max_iterations,
            final(self).stats.tasks_processed == old(self).stats.tasks_processed,
            final(self).stats.crystallizations == old(self).stats.crystallizations + if task.task_type
                == TaskType::Crystallization {
                1int
            } else {
                0int
            },
    {
        match task.task_type {
            TaskType::Crystallization => {
                self.stats.crystallizations = self.stats.crystallizations + 1;
                proof {
                    reveal_strlit("Crystallization completed");
                }
                TaskResult {
                    task_type: TaskType::Crystallization,
                    success: true,
                    message: String::from_str("Crystallization completed"),
                }
            },
            TaskType::KdfRelearn => TaskResult {
                task_type: TaskType::KdfRelearn,
                success: true,
                message: String::from_str("Relearn completed"),
            },
            TaskType::Consolidation => TaskResult {
                task_type: TaskType::Consolidation,
                success: true,
                message: String::from_str("Consolidation completed"),
            },
            TaskType::KeygraphAnalysis => TaskResult {
                task_type: TaskType::KeygraphAnalysis,
                success: false,
                message: String::from_str("Unknown task type"),
            },
            TaskType::Unknown => TaskResult {
                task_type: TaskType::Unknown,
                success: false,
                message: String::from_str("Unknown task type"),
            },
        }
    }

    /// Number of queued tasks.
    pub fn queue_size(&self) -> (n: usize)
        ensures
            n == self.pending().len(),
    {
        self.task_queue.len()
    }

    /// Drop every queued task.
    pub fn clear_queue(&mut self)
        ensures
            final(self).pending() == Seq::<HeavyTask>::empty(),
            final(self).wf(),
            final(self).processed_count() == old(self).processed_count(),
            final(self).crystallization_count() == old(self).crystallization_count(),
            final(self).iteration_limit() == old(self).iteration_limit(),
    {
        self.task_queue.clear();
    }

    /// Statistics so far.
    pub fn get_statistics(&self) -> (s: SleepEngineStats)
        ensures
            s.tasks_processed == self.processed_count(),
            s.crystallizations == self.crystallization_count(),
    {
        SleepEngineStats {
            tasks_processed: self.stats.tasks_processed,
            crystallizations: self.stats.crystallizations,
        }
    }
}

impl Default for KDFSleepEngine {
    fn default() -> (e: Self)
        ensures
            e.wf(),
            e.pending() == Seq::<HeavyTask>::empty(),
            e.processed_count() == 0,
            e.crystallization_count() == 0,
            e.iteration_limit() == 1000,
    {
        KDFSleepEngine::new(1000)
    }
}

proof fn lemma_count_crystallizations_front(q: Seq<HeavyTask>)
    requires
        q.len() > 0,
    ensures
        count_crystallizations(q) == count_crystallizations(q.drop_first()) + if q[0].task_type
            == TaskType::Crystallization {
            1nat
        } else {
            0nat
        },
        count_crystallizations(q) <= q.len(),
    decreases q.len(),
{
    if q.len() > 1 {
        lemma_count_crystallizations_front(q.drop_last());
        assert(q.drop_last().drop_first() =~= q.drop_first().drop_last());
        assert(q.drop_first().last() == q.last());
        assert(q.drop_last()[0] == q[0]);
        assert(count_crystallizations(q.drop_first()) == count_crystallizations(q.drop_first().drop_last())
            + if q.drop_first().last().task_type == TaskType::Crystallization { 1nat } else { 0nat });
    } else {
        assert(q.drop_first().len() == 0);
        assert(q.drop_last().len() == 0);
        assert(count_crystallizations(q.drop_last()) == 0);
        assert(count_crystallizations(q.drop_first()) == 0);
    }
}

/// A project in the topic hierarchy.
#[derive(Clone, Debug)]
pub struct Project {
    /// Project id.
    pub id: String,
    /// Project name.
    pub name: String,
    /// Documents in the project.
    pub documents: Vec<String>,
    /// Project size.
    pub size: usize,
}

/// Result of a quick analysis.
#[derive(Clone, Debug)]
pub struct QuickAnalysisResult {
    /// Cluster insights.
    pub insights: Vec<ClusterInsight>,
    /// Total number of clusters.
    pub total_clusters: usize,
}

/// Insight about one cluster.
#[derive(Clone, Debug)]
pub struct ClusterInsight {
    /// Cluster size.
    pub cluster_size: usize,
    /// Documents of the cluster.
    pub documents: Vec<String>,
}

/// Counters of the think engine.
#[derive(Clone, Debug)]
pub struct ThinkEngineStats {
    /// Analyses performed.
    pub analyses_performed: u64,
    /// Insights generated.
    pub insights_generated: u64,
    /// Analogies found.
    pub analogies_found: u64,
}

impl Default for ThinkEngineStats {
    fn default() -> (s: Self)
        ensures
            s.analyses_performed == 0,
            s.insights_generated == 0,
            s.analogies_found == 0,
    {
        ThinkEngineStats { analyses_performed: 0, insights_generated: 0, analogies_found: 0 }
    }
}

/// Number of clusters per layer.
#[derive(Clone, Debug)]
pub struct ClusterSummary {
    /// Edge clusters.
    pub edge_clusters: usize,
    /// Rare clusters.
    pub rare_clusters: usize,
    /// Core clusters.
    pub core_clusters: usize,
    /// Total nodes.
    pub total_nodes: usize,
}

/// A concept related to a queried node.
#[derive(Clone, Debug)]
pub struct RelatedConcept {
    /// Node id.
    pub node_id: String,
    /// Domain.
    pub domain: String,
}

/// Highest priority first: in an ordered queue the task handed out `i`-th
/// (counting from the end) has a priority no lower than any task handed out
/// after it.
pub proof fn lemma_highest_priority_first(q: Seq<HeavyTask>, i: int, j: int)
    requires
        priority_sorted(q),
        0 <= i < j < q.len(),
    ensures
        q[q.len() - 1 - i].priority >= q[q.len() - 1 - j].priority,
{
}

} // verus!
