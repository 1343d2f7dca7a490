use dsa_practice::notes::{
    initialize_default_progress, DifficultyLevel, LearningProgress, PersonalSolution,
    ProblemSolvingStrategies, StudyPlan,
};
use dsa_practice::trees::TreeNode;

#[test]
fn test_personal_solution() {
    let mut solution = PersonalSolution::new("Test Problem", "arrays");
    solution.set_solution("fn test() {}");
    solution.set_complexity("O(1)", "O(1)");

    assert_eq!(solution.problem_name, "Test Problem");
    assert_eq!(solution.topic, "arrays");
    assert_eq!(solution.solution, "fn test() {}");
}

#[test]
fn test_study_plan() {
    let plan = StudyPlan::new();
    assert_eq!(plan.recommended_order[0], "arrays");
    assert_eq!(plan.recommended_order[1], "linked_lists");
}

#[test]
fn test_problem_solving_strategies() {
    let strategies = ProblemSolvingStrategies::new();
    let array_strategies = strategies.get_strategies("arrays").unwrap();
    assert!(array_strategies.contains(&"Two Pointers".to_string()));
}

#[test]
fn test_strategies_can_grow() {
    let mut strategies = ProblemSolvingStrategies::new();
    strategies.add_strategy("arrays", "Difference Array");
    strategies.add_strategy("math", "Sieve");
    let array_strategies = strategies.get_strategies("arrays").unwrap();
    assert_eq!(array_strategies.last().unwrap(), "Difference Array");
    let math_strategies = strategies.get_strategies("math").unwrap();
    assert_eq!(math_strategies, &vec!["Sieve".to_string()]);
    assert!(strategies.get_strategies("unknown").is_none());
}

#[test]
fn test_progress_tracking() {
    let mut progress = LearningProgress::new();
    progress.add_topic("arrays", 10, DifficultyLevel::Beginner);
    progress.mark_problem_solved("arrays");
    progress.mark_problem_solved("arrays");
    progress.add_note("arrays", "remember the two pointer trick");
    progress.mark_problem_solved("never added");

    let topics = progress.get_progress();
    assert_eq!(topics.len(), 1);
    assert_eq!(topics[0].0, "arrays");
    assert_eq!(topics[0].1.problems_solved, 2);
    assert_eq!(topics[0].1.total_problems, 10);
    assert_eq!(topics[0].1.notes.len(), 1);
}

#[test]
fn test_default_progress_and_next_topic() {
    let progress = initialize_default_progress();
    assert_eq!(progress.get_progress().len(), 11);

    let plan = StudyPlan::new();
    assert!(plan.get_next_topic(&progress).is_none());

    let mut partial = LearningProgress::new();
    partial.add_topic("arrays", 10, DifficultyLevel::Beginner);
    assert_eq!(plan.get_next_topic(&partial), Some("linked_lists".to_string()));
}

#[test]
fn test_tree_node_creation() {
    let node = TreeNode::new(5);
    assert_eq!(node.val, 5);
    assert!(node.left.is_none());
    assert!(node.right.is_none());
}
