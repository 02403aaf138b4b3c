use cgb_kdf::engines::{
    ClusterInsight, ClusterSummary, HeavyTask, KDFSleepEngine, NodeType, Project,
    QuickAnalysisResult, RelatedConcept, SleepEngineStats, TaskType, ThinkEngineStats,
};

#[test]
fn test_task_type_variants() {
    assert_eq!(TaskType::KeygraphAnalysis, TaskType::KeygraphAnalysis);
    assert_eq!(TaskType::KdfRelearn, TaskType::KdfRelearn);
    assert_eq!(TaskType::Crystallization, TaskType::Crystallization);
    assert_eq!(TaskType::Consolidation, TaskType::Consolidation);
    assert_eq!(TaskType::Unknown, TaskType::Unknown);
}

#[test]
fn test_task_type_clone_and_debug() {
    let task = TaskType::KeygraphAnalysis;
    let cloned = task.clone();
    assert_eq!(task, cloned);
    let debug_str = format!("{:?}", task);
    assert!(debug_str.contains("KeygraphAnalysis"));
}

#[test]
fn test_node_type_variants() {
    assert_eq!(NodeType::Raw, NodeType::Raw);
    assert_eq!(NodeType::Processed, NodeType::Processed);
    assert_eq!(NodeType::Crystal, NodeType::Crystal);
    assert_eq!(NodeType::Genesis, NodeType::Genesis);
}

#[test]
fn test_node_type_clone_and_debug() {
    let node_type = NodeType::Crystal;
    let cloned = node_type.clone();
    assert_eq!(node_type, cloned);
    let debug_str = format!("{:?}", node_type);
    assert!(debug_str.contains("Crystal"));
}

#[test]
fn test_project_structure() {
    let project = Project {
        id: "proj1".to_string(),
        name: "Test Project".to_string(),
        documents: vec!["doc1".to_string(), "doc2".to_string()],
        size: 2,
    };
    assert_eq!(project.id, "proj1");
    assert_eq!(project.name, "Test Project");
    assert_eq!(project.documents.len(), 2);
    assert_eq!(project.size, 2);
}

#[test]
fn test_quick_analysis_result() {
    let result = QuickAnalysisResult {
        insights: vec![ClusterInsight {
            cluster_size: 5,
            documents: vec!["a".to_string()],
        }],
        total_clusters: 1,
    };
    assert_eq!(result.total_clusters, 1);
    assert_eq!(result.insights.len(), 1);
    assert_eq!(result.insights[0].cluster_size, 5);
}

#[test]
fn test_cluster_summary() {
    let summary = ClusterSummary {
        edge_clusters: 5,
        rare_clusters: 2,
        core_clusters: 3,
        total_nodes: 100,
    };
    assert_eq!(summary.edge_clusters, 5);
    assert_eq!(summary.rare_clusters, 2);
    assert_eq!(summary.core_clusters, 3);
    assert_eq!(summary.total_nodes, 100);
}

#[test]
fn test_related_concept() {
    let concept = RelatedConcept {
        node_id: "concept1".to_string(),
        domain: "science".to_string(),
    };
    assert_eq!(concept.node_id, "concept1");
    assert_eq!(concept.domain, "science");
}

#[test]
fn test_heavy_task_new() {
    let task = HeavyTask::new(TaskType::Crystallization);
    assert_eq!(task.task_type, TaskType::Crystallization);
    assert!(task.node_id.is_none());
    assert_eq!(task.priority, 0);
    assert!(task.created_at > 0);
    assert!(task.metadata.is_empty());
}

#[test]
fn test_heavy_task_with_node_id() {
    let mut task = HeavyTask::new(TaskType::KdfRelearn);
    task.node_id = Some("node123".to_string());
    assert_eq!(task.node_id, Some("node123".to_string()));
}

#[test]
fn test_heavy_task_with_metadata() {
    let mut task = HeavyTask::new(TaskType::Consolidation);
    task.metadata.insert("key".to_string(), "value".to_string());
    assert_eq!(task.metadata.get("key"), Some(&"value".to_string()));
}

#[test]
fn test_think_engine_stats_default() {
    let stats: ThinkEngineStats = Default::default();
    assert_eq!(stats.analyses_performed, 0);
    assert_eq!(stats.insights_generated, 0);
    assert_eq!(stats.analogies_found, 0);
}

#[test]
fn test_sleep_engine_creation() {
    let engine = KDFSleepEngine::default();
    assert_eq!(engine.queue_size(), 0);
}

#[test]
fn test_sleep_engine_new_with_iterations() {
    let engine = KDFSleepEngine::new(500);
    assert_eq!(engine.max_iterations, 500);
}

#[test]
fn test_sleep_engine_queue() {
    let mut engine = KDFSleepEngine::default();
    engine.queue_task(HeavyTask::new(TaskType::KdfRelearn));
    let mut high_priority = HeavyTask::new(TaskType::Crystallization);
    high_priority.priority = 10;
    engine.queue_task(high_priority);
    assert_eq!(engine.queue_size(), 2);
    let results = engine.process_tasks(1);
    assert_eq!(results.len(), 1);
    assert_eq!(results[0].task_type, TaskType::Crystallization);
    assert_eq!(engine.queue_size(), 1);
}

#[test]
fn test_sleep_engine_process_all_task_types() {
    let mut engine = KDFSleepEngine::default();
    engine.queue_task(HeavyTask::new(TaskType::Crystallization));
    engine.queue_task(HeavyTask::new(TaskType::KdfRelearn));
    engine.queue_task(HeavyTask::new(TaskType::Consolidation));
    engine.queue_task(HeavyTask::new(TaskType::Unknown));
    let results = engine.process_tasks(4);
    assert_eq!(results.len(), 4);
    let crystal = results.iter().find(|r| r.task_type == TaskType::Crystallization).unwrap();
    assert!(crystal.success);
    assert!(crystal.message.contains("Crystallization"));
    let relearn = results.iter().find(|r| r.task_type == TaskType::KdfRelearn).unwrap();
    assert!(relearn.success);
    assert!(relearn.message.contains("Relearn"));
    let consolidation = results.iter().find(|r| r.task_type == TaskType::Consolidation).unwrap();
    assert!(consolidation.success);
    assert!(consolidation.message.contains("Consolidation"));
    let unknown = results.iter().find(|r| r.task_type == TaskType::Unknown).unwrap();
    assert!(!unknown.success);
    assert!(unknown.message.contains("Unknown"));
}

#[test]
fn test_sleep_engine_clear_queue() {
    let mut engine = KDFSleepEngine::default();
    engine.queue_task(HeavyTask::new(TaskType::Crystallization));
    engine.queue_task(HeavyTask::new(TaskType::KdfRelearn));
    assert_eq!(engine.queue_size(), 2);
    engine.clear_queue();
    assert_eq!(engine.queue_size(), 0);
}

#[test]
fn test_sleep_engine_get_statistics() {
    let mut engine = KDFSleepEngine::default();
    engine.queue_task(HeavyTask::new(TaskType::Crystallization));
    engine.process_tasks(1);
    let stats = engine.get_statistics();
    assert_eq!(stats.tasks_processed, 1);
    assert_eq!(stats.crystallizations, 1);
}

#[test]
fn test_sleep_engine_process_empty_queue() {
    let mut engine = KDFSleepEngine::default();
    let results = engine.process_tasks(5);
    assert!(results.is_empty());
}

#[test]
fn test_sleep_engine_priority_ordering() {
    let mut engine = KDFSleepEngine::default();
    let mut task1 = HeavyTask::new(TaskType::KdfRelearn);
    task1.priority = 1;
    let mut task2 = HeavyTask::new(TaskType::Crystallization);
    task2.priority = 5;
    let mut task3 = HeavyTask::new(TaskType::Consolidation);
    task3.priority = 3;
    engine.queue_task(task1);
    engine.queue_task(task2);
    engine.queue_task(task3);
    let results = engine.process_tasks(3);
    assert_eq!(results[0].task_type, TaskType::Crystallization);
    assert_eq!(results[1].task_type, TaskType::Consolidation);
    assert_eq!(results[2].task_type, TaskType::KdfRelearn);
}

#[test]
fn test_sleep_engine_stats_default() {
    let stats: SleepEngineStats = Default::default();
    assert_eq!(stats.tasks_processed, 0);
    assert_eq!(stats.crystallizations, 0);
}

#[test]
fn equal_priorities_latest_queued_first() {
    let mut engine = KDFSleepEngine::new(10);
    let mut a = HeavyTask::new(TaskType::KdfRelearn);
    a.priority = 2;
    let mut b = HeavyTask::new(TaskType::Consolidation);
    b.priority = 2;
    engine.queue_task(a);
    engine.queue_task(b);
    let results = engine.process_tasks(2);
    assert_eq!(results[0].task_type, TaskType::Consolidation);
    assert_eq!(results[1].task_type, TaskType::KdfRelearn);
}

#[test]
fn processing_more_than_queued_stops_at_empty() {
    let mut engine = KDFSleepEngine::new(10);
    engine.queue_task(HeavyTask::new(TaskType::Unknown));
    let results = engine.process_tasks(10);
    assert_eq!(results.len(), 1);
    assert_eq!(results[0].message, "Unknown task type");
    assert_eq!(engine.queue_size(), 0);
    assert_eq!(engine.get_statistics().tasks_processed, 1);
    assert_eq!(engine.get_statistics().crystallizations, 0);
}

#[test]
fn processed_tasks_come_out_in_non_increasing_priority() {
    let mut engine = KDFSleepEngine::new(10);
    let prios = [4u32, 9, 1, 9, 0, 7];
    let kinds = [
        TaskType::KdfRelearn,
        TaskType::Crystallization,
        TaskType::Consolidation,
        TaskType::KeygraphAnalysis,
        TaskType::Unknown,
        TaskType::Crystallization,
    ];
    for (p, k) in prios.iter().zip(kinds.iter()) {
        let mut t = HeavyTask::new(k.clone());
        t.priority = *p;
        engine.queue_task(t);
    }
    let results = engine.process_tasks(6);
    assert_eq!(results.len(), 6);
    assert_eq!(results[0].task_type, TaskType::KeygraphAnalysis);
    assert_eq!(results[1].task_type, TaskType::Crystallization);
    assert_eq!(results[2].task_type, TaskType::Crystallization);
    assert_eq!(results[5].task_type, TaskType::Unknown);
    assert_eq!(engine.get_statistics().crystallizations, 2);
}

#[test]
fn task_keeps_its_creation_time() {
    let task = HeavyTask::new_at(TaskType::KdfRelearn, 1_700_000_000);
    assert_eq!(task.created_at, 1_700_000_000);
    assert_eq!(task.priority, 0);
    assert!(task.node_id.is_none());
    assert!(task.metadata.is_empty());
}
