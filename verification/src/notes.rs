//! A small learning-progress notebook: topics with counters and
//! notes, personal solution records, a study plan, and a catalogue
//! of problem-solving strategies.

use vstd::prelude::*;

verus! {

broadcast use vstd::string::group_string_axioms;

/// How hard a topic is rated.
#[derive(Debug, Clone, PartialEq, Eq, Structural)]
pub enum DifficultyLevel {
    Beginner,
    Intermediate,
    Advanced,
}

/// Progress on one topic.
#[derive(Debug, Clone)]
pub struct TopicProgress {
    pub name: String,
    pub problems_solved: usize,
    pub total_problems: usize,
    pub last_practiced: u64,
    pub notes: Vec<String>,
    pub difficulty_level: DifficultyLevel,
}

/// Index of the first entry whose key reads `name`, or -1.
pub open spec fn find_topic(s: Seq<(String, TopicProgress)>, name: Seq<char>) -> int
    decreases s.len(),
{
    if s.len() == 0 {
        -1
    } else if s[0].0@ == name {
        0
    } else {
        let r = find_topic(s.drop_first(), name);
        if r < 0 {
            -1
        } else {
            r + 1
        }
    }
}

proof fn lemma_find_topic_props(s: Seq<(String, TopicProgress)>, name: Seq<char>)
    ensures
        find_topic(s, name) == -1 ==> forall|i: int|
            0 <= i < s.len() ==> (#[trigger] s[i]).0@ != name,
        find_topic(s, name) >= 0 ==> find_topic(s, name) < s.len() && s[find_topic(s, name)].0@
            == name && forall|i: int| 0 <= i < find_topic(s, name) ==> (#[trigger] s[i]).0@ != name,
    decreases s.len(),
{
    if s.len() > 0 && s[0].0@ != name {
        lemma_find_topic_props(s.drop_first(), name);
        assert(forall|i: int|
            1 <= i < s.len() ==> (#[trigger] s[i]) == s.drop_first()[i - 1]);
    }
}

proof fn lemma_find_topic_at(s: Seq<(String, TopicProgress)>, name: Seq<char>, i: int)
    requires
        0 <= i < s.len(),
        s[i].0@ == name,
        forall|j: int| 0 <= j < i ==> (#[trigger] s[j]).0@ != name,
    ensures
        find_topic(s, name) == i,
    decreases i,
{
    if i > 0 {
        assert(s.drop_first()[i - 1] == s[i]);
        assert(forall|j: int| 0 <= j < i - 1 ==> (#[trigger] s.drop_first()[j]) == s[j + 1]);
        lemma_find_topic_at(s.drop_first(), name, i - 1);
    }
}

/// A freshly added topic record.
pub open spec fn fresh_topic(
    tp: TopicProgress,
    name: Seq<char>,
    total: usize,
    difficulty: DifficultyLevel,
) -> bool {
    &&& tp.name@ == name
    &&& tp.problems_solved == 0
    &&& tp.total_problems == total
    &&& tp.last_practiced == 0
    &&& tp.notes@.len() == 0
    &&& tp.difficulty_level == difficulty
}

/// Tracks progress on a set of named topics.
pub struct LearningProgress {
    topics: Vec<(String, TopicProgress)>,
    start_date: u64,
}

/// Seconds since the Unix epoch.  Relies on std::time::SystemTime:
/// the clock value depends on when the call runs, so nothing is
/// promised of it.
#[verifier::external_body]
fn now_unix_seconds() -> u64 {
    std::time::SystemTime::now().duration_since(std::time::UNIX_EPOCH).map(
        |d| d.as_secs(),
    ).unwrap_or(0)
}

impl LearningProgress {
    /// The topic entries, in the order they were first added.
    pub closed spec fn topics_view(&self) -> Seq<(String, TopicProgress)> {
        self.topics@
    }

    pub fn new() -> (result: LearningProgress)
        ensures
            result.topics_view().len() == 0,
    {
        LearningProgress { topics: Vec::new(), start_date: now_unix_seconds() }
    }

    fn find_index(&self, name: &str) -> (result: Option<usize>)
        ensures
            match result {
                Some(i) => i < self.topics_view().len() && i as int == find_topic(
                    self.topics_view(),
                    name@,
                ),
                None => find_topic(self.topics_view(), name@) == -1,
            },
    {
        let key: String = name.to_owned();
        let mut i: usize = 0;
        while i < self.topics.len()
            invariant
                key@ == name@,
                0 <= i <= self.topics@.len(),
                forall|j: int| 0 <= j < i ==> (#[trigger] self.topics@[j]).0@ != name@,
            decreases self.topics@.len() - i,
        {
            if self.topics[i].0 == key {
                proof {
                    lemma_find_topic_at(self.topics@, name@, i as int);
                }
                return Some(i);
            }
            i = i + 1;
        }
        proof {
            lemma_find_topic_props(self.topics@, name@);
            if find_topic(self.topics@, name@) >= 0 {
                assert(self.topics@[find_topic(self.topics@, name@)].0@ != name@);
            }
        }
        None
    }

    /// Add a topic, or reset it when one with this name exists.
    pub fn add_topic(&mut self, name: &str, total_problems: usize, difficulty: DifficultyLevel)
        ensures
            ({
                let i = find_topic(old(self).topics_view(), name@);
                let v = final(self).topics_view();
                let v0 = old(self).topics_view();
                &&& (i == -1 ==> v.len() == v0.len() + 1 && (forall|k: int|
                    0 <= k < v0.len() ==> v[k] == v0[k]) && v.last().0@ == name@ && fresh_topic(
                    v.last().1,
                    name@,
                    total_problems,
                    difficulty,
                ))
                &&& (i >= 0 ==> v.len() == v0.len() && (forall|k: int|
                    0 <= k < v0.len() && k != i ==> v[k] == v0[k]) && v[i].0@ == name@
                    && fresh_topic(v[i].1, name@, total_problems, difficulty))
            }),
    {
        let tp = TopicProgress {
            name: name.to_owned(),
            problems_solved: 0,
            total_problems,
            last_practiced: 0,
            notes: Vec::new(),
            difficulty_level: difficulty,
        };
        match self.find_index(name) {
            Some(i) => {
                let entry = &mut self.topics[i];
                entry.0 = name.to_owned();
                entry.1 = tp;
            },
            None => {
                self.topics.push((name.to_owned(), tp));
            },
        }
    }

    /// Record one more solved problem and stamp the practice time;
    /// unknown topics are ignored.
    pub fn mark_problem_solved(&mut self, topic: &str)
        requires
            ({
                let i = find_topic(old(self).topics_view(), topic@);
                i >= 0 ==> old(self).topics_view()[i].1.problems_solved < usize::MAX
            }),
        ensures
            ({
                let i = find_topic(old(self).topics_view(), topic@);
                let v = final(self).topics_view();
                let v0 = old(self).topics_view();
                &&& (i == -1 ==> v == v0)
                &&& (i >= 0 ==> v.len() == v0.len() && (forall|k: int|
                    0 <= k < v0.len() && k != i ==> v[k] == v0[k]) && v[i].0 == v0[i].0 && ({
                    let tp = v[i].1;
                    let tp0 = v0[i].1;
                    &&& tp.name == tp0.name
                    &&& tp.problems_solved == tp0.problems_solved + 1
                    &&& tp.total_problems == tp0.total_problems
                    &&& tp.notes == tp0.notes
                    &&& tp.difficulty_level == tp0.difficulty_level
                }))
            }),
    {
        match self.find_index(topic) {
            Some(i) => {
                let stamp = now_unix_seconds();
                let entry = &mut self.topics[i];
                entry.1.problems_solved = entry.1.problems_solved + 1;
                entry.1.last_practiced = stamp;
            },
            None => {},
        }
    }

    /// Append a note to a topic; unknown topics are ignored.
    pub fn add_note(&mut self, topic: &str, note: &str)
        ensures
            ({
                let i = find_topic(old(self).topics_view(), topic@);
                let v = final(self).topics_view();
                let v0 = old(self).topics_view();
                &&& (i == -1 ==> v == v0)
                &&& (i >= 0 ==> v.len() == v0.len() && (forall|k: int|
                    0 <= k < v0.len() && k != i ==> v[k] == v0[k]) && v[i].0 == v0[i].0 && ({
                    let tp = v[i].1;
                    let tp0 = v0[i].1;
                    &&& tp.name == tp0.name
                    &&& tp.problems_solved == tp0.problems_solved
                    &&& tp.total_problems == tp0.total_problems
                    &&& tp.last_practiced == tp0.last_practiced
                    &&& tp.difficulty_level == tp0.difficulty_level
                    &&& tp.notes@.len() == tp0.notes@.len() + 1
                    &&& tp.notes@.last()@ == note@
                    &&& forall|m: int| 0 <= m < tp0.notes@.len() ==> tp.notes@[m] == tp0.notes@[m]
                }))
            }),
    {
        match self.find_index(topic) {
            Some(i) => {
                let entry = &mut self.topics[i];
                entry.1.notes.push(note.to_owned());
            },
            None => {},
        }
    }

    /// The stored topic entries.
    pub fn get_progress(&self) -> (result: &Vec<(String, TopicProgress)>)
        ensures
            result@ == self.topics_view(),
    {
        &self.topics
    }
}


/// A record of one solved problem.
pub struct PersonalSolution {
    pub problem_name: String,
    pub topic: String,
    pub solution: String,
    pub time_complexity: String,
    pub space_complexity: String,
    pub notes: String,
    pub date_solved: u64,
}

impl PersonalSolution {
    pub fn new(problem_name: &str, topic: &str) -> (result: PersonalSolution)
        ensures
            result.problem_name@ == problem_name@,
            result.topic@ == topic@,
            result.solution@.len() == 0,
            result.time_complexity@.len() == 0,
            result.space_complexity@.len() == 0,
            result.notes@.len() == 0,
    {
        PersonalSolution {
            problem_name: problem_name.to_owned(),
            topic: topic.to_owned(),
            solution: String::new(),
            time_complexity: String::new(),
            space_complexity: String::new(),
            notes: String::new(),
            date_solved: now_unix_seconds(),
        }
    }

    pub fn set_solution(&mut self, solution: &str)
        ensures
            final(self).solution@ == solution@,
            final(self).problem_name == old(self).problem_name,
            final(self).topic == old(self).topic,
            final(self).time_complexity == old(self).time_complexity,
            final(self).space_complexity == old(self).space_complexity,
            final(self).notes == old(self).notes,
            final(self).date_solved == old(self).date_solved,
    {
        self.solution = solution.to_owned();
    }

    pub fn set_complexity(&mut self, time: &str, space: &str)
        ensures
            final(self).time_complexity@ == time@,
            final(self).space_complexity@ == space@,
            final(self).problem_name == old(self).problem_name,
            final(self).topic == old(self).topic,
            final(self).solution == old(self).solution,
            final(self).notes == old(self).notes,
            final(self).date_solved == old(self).date_solved,
    {
        self.time_complexity = time.to_owned();
        self.space_complexity = space.to_owned();
    }

    pub fn add_notes(&mut self, notes: &str)
        ensures
            final(self).notes@ == notes@,
            final(self).problem_name == old(self).problem_name,
            final(self).topic == old(self).topic,
            final(self).solution == old(self).solution,
            final(self).time_complexity == old(self).time_complexity,
            final(self).space_complexity == old(self).space_complexity,
            final(self).date_solved == old(self).date_solved,
    {
        self.notes = notes.to_owned();
    }
}

/// The fixed order in which topics are recommended.
pub open spec fn recommended_topics() -> Seq<Seq<char>> {
    seq![
        "arrays"@,
        "linked_lists"@,
        "stacks"@,
        "queues"@,
        "trees"@,
        "graphs"@,
        "sorting"@,
        "searching"@,
        "dynamic_programming"@,
        "strings"@,
        "math"@,
    ]
}

/// Goals and the recommended topic order for studying.
pub struct StudyPlan {
    pub daily_goals: Vec<String>,
    pub weekly_targets: Vec<String>,
    pub recommended_order: Vec<String>,
}

/// Position of the first recommended topic that the progress tracker
/// does not know yet, or -1 when it knows them all.
pub open spec fn next_missing(
    order: Seq<String>,
    topics: Seq<(String, TopicProgress)>,
) -> int
    decreases order.len(),
{
    if order.len() == 0 {
        -1
    } else if find_topic(topics, order[0]@) == -1 {
        0
    } else {
        let r = next_missing(order.drop_first(), topics);
        if r < 0 {
            -1
        } else {
            r + 1
        }
    }
}

proof fn lemma_next_missing_at(
    order: Seq<String>,
    topics: Seq<(String, TopicProgress)>,
    i: int,
)
    requires
        0 <= i < order.len(),
        find_topic(topics, order[i]@) == -1,
        forall|j: int| 0 <= j < i ==> find_topic(topics, (#[trigger] order[j])@) != -1,
    ensures
        next_missing(order, topics) == i,
    decreases i,
{
    if i > 0 {
        assert(order.drop_first()[i - 1] == order[i]);
        assert(forall|j: int|
            0 <= j < i - 1 ==> (#[trigger] order.drop_first()[j]) == order[j + 1]);
        lemma_next_missing_at(order.drop_first(), topics, i - 1);
    }
}

proof fn lemma_next_missing_none(order: Seq<String>, topics: Seq<(String, TopicProgress)>)
    requires
        forall|j: int|
            0 <= j < order.len() ==> find_topic(topics, (#[trigger] order[j])@) != -1,
    ensures
        next_missing(order, topics) == -1,
    decreases order.len(),
{
    if order.len() > 0 {
        assert(forall|j: int|
            0 <= j < order.len() - 1 ==> (#[trigger] order.drop_first()[j]) == order[j + 1]);
        lemma_next_missing_none(order.drop_first(), topics);
    }
}

impl StudyPlan {
    pub fn new() -> (result: StudyPlan)
        ensures
            result.daily_goals@.len() == 0,
            result.weekly_targets@.len() == 0,
            result.recommended_order@.len() == recommended_topics().len(),
            forall|i: int|
                0 <= i < recommended_topics().len() ==> (
                #[trigger] result.recommended_order@[i])@ == recommended_topics()[i],
    {
        let recommended_order: Vec<String> = vec![
            "arrays".to_string(),
            "linked_lists".to_string(),
            "stacks".to_string(),
            "queues".to_string(),
            "trees".to_string(),
            "graphs".to_string(),
            "sorting".to_string(),
            "searching".to_string(),
            "dynamic_programming".to_string(),
            "strings".to_string(),
            "math".to_string(),
        ];
        StudyPlan { daily_goals: Vec::new(), weekly_targets: Vec::new(), recommended_order }
    }

    pub fn add_daily_goal(&mut self, goal: &str)
        ensures
            final(self).daily_goals@.len() == old(self).daily_goals@.len() + 1,
            final(self).daily_goals@.last()@ == goal@,
            forall|i: int|
                0 <= i < old(self).daily_goals@.len() ==> final(self).daily_goals@[i] == old(
                    self,
                ).daily_goals@[i],
            final(self).weekly_targets == old(self).weekly_targets,
            final(self).recommended_order == old(self).recommended_order,
    {
        self.daily_goals.push(goal.to_owned());
    }

    pub fn add_weekly_target(&mut self, target: &str)
        ensures
            final(self).weekly_targets@.len() == old(self).weekly_targets@.len() + 1,
            final(self).weekly_targets@.last()@ == target@,
            forall|i: int|
                0 <= i < old(self).weekly_targets@.len() ==> final(self).weekly_targets@[i] == old(
                    self,
                ).weekly_targets@[i],
            final(self).daily_goals == old(self).daily_goals,
            final(self).recommended_order == old(self).recommended_order,
    {
        self.weekly_targets.push(target.to_owned());
    }

    /// The first recommended topic that the tracker has not started.
    pub fn get_next_topic(&self, current_progress: &LearningProgress) -> (result: Option<String>)
        ensures
            ({
                let m = next_missing(self.recommended_order@, current_progress.topics_view());
                match result {
                    Some(t) => m >= 0 && t@ == self.recommended_order@[m]@,
                    None => m == -1,
                }
            }),
    {
        let mut i: usize = 0;
        while i < self.recommended_order.len()
            invariant
                0 <= i <= self.recommended_order@.len(),
                forall|j: int|
                    0 <= j < i ==> find_topic(
                        current_progress.topics_view(),
                        (#[trigger] self.recommended_order@[j])@,
                    ) != -1,
            decreases self.recommended_order@.len() - i,
        {
            let topic = &self.recommended_order[i];
            match current_progress.find_index(topic.as_str()) {
                None => {
                    proof {
                        lemma_next_missing_at(
                            self.recommended_order@,
                            current_progress.topics_view(),
                            i as int,
                        );
                    }
                    return Some(topic.clone());
                },
                Some(_) => {},
            }
            i = i + 1;
        }
        proof {
            lemma_next_missing_none(self.recommended_order@, current_progress.topics_view());
        }
        None
    }
}


/// Index of the first strategy entry whose key reads `name`, or -1.
pub open spec fn find_strategy(s: Seq<(String, Vec<String>)>, name: Seq<char>) -> int
    decreases s.len(),
{
    if s.len() == 0 {
        -1
    } else if s[0].0@ == name {
        0
    } else {
        let r = find_strategy(s.drop_first(), name);
        if r < 0 {
            -1
        } else {
            r + 1
        }
    }
}

proof fn lemma_find_strategy_props(s: Seq<(String, Vec<String>)>, name: Seq<char>)
    ensures
        find_strategy(s, name) == -1 ==> forall|i: int|
            0 <= i < s.len() ==> (#[trigger] s[i]).0@ != name,
        find_strategy(s, name) >= 0 ==> find_strategy(s, name) < s.len() && s[find_strategy(
            s,
            name,
        )].0@ == name && forall|i: int|
            0 <= i < find_strategy(s, name) ==> (#[trigger] s[i]).0@ != name,
    decreases s.len(),
{
    if s.len() > 0 && s[0].0@ != name {
        lemma_find_strategy_props(s.drop_first(), name);
        assert(forall|i: int|
            1 <= i < s.len() ==> (#[trigger] s[i]) == s.drop_first()[i - 1]);
    }
}

proof fn lemma_find_strategy_at(s: Seq<(String, Vec<String>)>, name: Seq<char>, i: int)
    requires
        0 <= i < s.len(),
        s[i].0@ == name,
        forall|j: int| 0 <= j < i ==> (#[trigger] s[j]).0@ != name,
    ensures
        find_strategy(s, name) == i,
    decreases i,
{
    if i > 0 {
        assert(s.drop_first()[i - 1] == s[i]);
        assert(forall|j: int| 0 <= j < i - 1 ==> (#[trigger] s.drop_first()[j]) == s[j + 1]);
        lemma_find_strategy_at(s.drop_first(), name, i - 1);
    }
}

/// Named lists of problem-solving strategies.
pub struct ProblemSolvingStrategies {
    strategies: Vec<(String, Vec<String>)>,
}

impl ProblemSolvingStrategies {
    /// The strategy entries, in the order they were first added.
    pub closed spec fn strategies_view(&self) -> Seq<(String, Vec<String>)> {
        self.strategies@
    }

    /// Start from the built-in catalogue of four topics.
    pub fn new() -> (result: ProblemSolvingStrategies)
        ensures
            result.strategies_view().len() == 4,
            result.strategies_view()[0].0@ == "arrays"@,
            result.strategies_view()[0].1.deep_view() == seq![
                "Two Pointers"@,
                "Sliding Window"@,
                "Prefix Sum"@,
                "Kadane's Algorithm"@,
                "Binary Search"@,
            ],
            result.strategies_view()[1].0@ == "linked_lists"@,
            result.strategies_view()[1].1.deep_view() == seq![
                "Two Pointers (Fast/Slow)"@,
                "Reverse in Place"@,
                "Merge Sort"@,
                "Cycle Detection"@,
            ],
            result.strategies_view()[2].0@ == "stacks"@,
            result.strategies_view()[2].1.deep_view() == seq![
                "Monotonic Stack"@,
                "Parentheses Matching"@,
                "Expression Evaluation"@,
                "Histogram Problems"@,
            ],
            result.strategies_view()[3].0@ == "queues"@,
            result.strategies_view()[3].1.deep_view() == seq![
                "BFS"@,
                "Level Order Traversal"@,
                "Sliding Window"@,
                "Priority Queue"@,
            ],
    {
        let mut strategies: Vec<(String, Vec<String>)> = Vec::new();

        let arrays_list: Vec<String> = vec![
            "Two Pointers".to_string(),
            "Sliding Window".to_string(),
            "Prefix Sum".to_string(),
            "Kadane's Algorithm".to_string(),
            "Binary Search".to_string(),
        ];
        strategies.push(("arrays".to_string(), arrays_list));

        let lists_list: Vec<String> = vec![
            "Two Pointers (Fast/Slow)".to_string(),
            "Reverse in Place".to_string(),
            "Merge Sort".to_string(),
            "Cycle Detection".to_string(),
        ];
        strategies.push(("linked_lists".to_string(), lists_list));

        let stacks_list: Vec<String> = vec![
            "Monotonic Stack".to_string(),
            "Parentheses Matching".to_string(),
            "Expression Evaluation".to_string(),
            "Histogram Problems".to_string(),
        ];
        strategies.push(("stacks".to_string(), stacks_list));

        let queues_list: Vec<String> = vec![
            "BFS".to_string(),
            "Level Order Traversal".to_string(),
            "Sliding Window".to_string(),
            "Priority Queue".to_string(),
        ];
        strategies.push(("queues".to_string(), queues_list));

        let r = ProblemSolvingStrategies { strategies };
        proof {
            assert(r.strategies_view()[0].1.deep_view() =~= seq![
                "Two Pointers"@,
                "Sliding Window"@,
                "Prefix Sum"@,
                "Kadane's Algorithm"@,
                "Binary Search"@,
            ]);
            assert(r.strategies_view()[1].1.deep_view() =~= seq![
                "Two Pointers (Fast/Slow)"@,
                "Reverse in Place"@,
                "Merge Sort"@,
                "Cycle Detection"@,
            ]);
            assert(r.strategies_view()[2].1.deep_view() =~= seq![
                "Monotonic Stack"@,
                "Parentheses Matching"@,
                "Expression Evaluation"@,
                "Histogram Problems"@,
            ]);
            assert(r.strategies_view()[3].1.deep_view() =~= seq![
                "BFS"@,
                "Level Order Traversal"@,
                "Sliding Window"@,
                "Priority Queue"@,
            ]);
        }
        r
    }

    fn find_strat_index(&self, name: &str) -> (result: Option<usize>)
        ensures
            match result {
                Some(i) => i < self.strategies_view().len() && i as int == find_strategy(
                    self.strategies_view(),
                    name@,
                ),
                None => find_strategy(self.strategies_view(), name@) == -1,
            },
    {
        let key: String = name.to_owned();
        let mut i: usize = 0;
        while i < self.strategies.len()
            invariant
                key@ == name@,
                0 <= i <= self.strategies@.len(),
                forall|j: int| 0 <= j < i ==> (#[trigger] self.strategies@[j]).0@ != name@,
            decreases self.strategies@.len() - i,
        {
            if self.strategies[i].0 == key {
                proof {
                    lemma_find_strategy_at(self.strategies@, name@, i as int);
                }
                return Some(i);
            }
            i = i + 1;
        }
        proof {
            lemma_find_strategy_props(self.strategies@, name@);
            if find_strategy(self.strategies@, name@) >= 0 {
                assert(self.strategies@[find_strategy(self.strategies@, name@)].0@ != name@);
            }
        }
        None
    }

    /// The strategies recorded for a topic, when any are.
    pub fn get_strategies(&self, topic: &str) -> (result: Option<&Vec<String>>)
        ensures
            ({
                let i = find_strategy(self.strategies_view(), topic@);
                match result {
                    Some(v) => i >= 0 && v == &self.strategies_view()[i].1,
                    None => i == -1,
                }
            }),
    {
        match self.find_strat_index(topic) {
            Some(i) => Some(&self.strategies[i].1),
            None => None,
        }
    }

    /// Append a strategy to a topic, creating the topic as needed.
    pub fn add_strategy(&mut self, topic: &str, strategy: &str)
        ensures
            ({
                let i = find_strategy(old(self).strategies_view(), topic@);
                let v = final(self).strategies_view();
                let v0 = old(self).strategies_view();
                &&& (i == -1 ==> v.len() == v0.len() + 1 && (forall|k: int|
                    0 <= k < v0.len() ==> v[k] == v0[k]) && v.last().0@ == topic@
                    && v.last().1@.len() == 1 && v.last().1@[0]@ == strategy@)
                &&& (i >= 0 ==> v.len() == v0.len() && (forall|k: int|
                    0 <= k < v0.len() && k != i ==> v[k] == v0[k]) && v[i].0 == v0[i].0
                    && v[i].1@.len() == v0[i].1@.len() + 1 && v[i].1@.last()@ == strategy@ && (
                forall|m: int| 0 <= m < v0[i].1@.len() ==> v[i].1@[m] == v0[i].1@[m]))
            }),
    {
        match self.find_strat_index(topic) {
            Some(i) => {
                let entry = &mut self.strategies[i];
                entry.1.push(strategy.to_owned());
            },
            None => {
                let list: Vec<String> = vec![strategy.to_owned()];
                self.strategies.push((topic.to_owned(), list));
            },
        }
    }
}


/// The default notebook: the eleven standard topics with their
/// planned problem counts and difficulty ratings.
pub fn initialize_default_progress() -> (result: LearningProgress)
    ensures
        result.topics_view().len() == 11,
            result.topics_view()[0].0@ == "arrays"@,
            fresh_topic(result.topics_view()[0].1, "arrays"@, 10, DifficultyLevel::Beginner),
            result.topics_view()[1].0@ == "linked_lists"@,
            fresh_topic(result.topics_view()[1].1, "linked_lists"@, 8, DifficultyLevel::Beginner),
            result.topics_view()[2].0@ == "stacks"@,
            fresh_topic(result.topics_view()[2].1, "stacks"@, 6, DifficultyLevel::Intermediate),
            result.topics_view()[3].0@ == "queues"@,
            fresh_topic(result.topics_view()[3].1, "queues"@, 6, DifficultyLevel::Intermediate),
            result.topics_view()[4].0@ == "trees"@,
            fresh_topic(result.topics_view()[4].1, "trees"@, 12, DifficultyLevel::Intermediate),
            result.topics_view()[5].0@ == "graphs"@,
            fresh_topic(result.topics_view()[5].1, "graphs"@, 15, DifficultyLevel::Advanced),
            result.topics_view()[6].0@ == "sorting"@,
            fresh_topic(result.topics_view()[6].1, "sorting"@, 8, DifficultyLevel::Intermediate),
            result.topics_view()[7].0@ == "searching"@,
            fresh_topic(result.topics_view()[7].1, "searching"@, 5, DifficultyLevel::Beginner),
            result.topics_view()[8].0@ == "dynamic_programming"@,
            fresh_topic(result.topics_view()[8].1, "dynamic_programming"@, 20, DifficultyLevel::Advanced),
            result.topics_view()[9].0@ == "strings"@,
            fresh_topic(result.topics_view()[9].1, "strings"@, 10, DifficultyLevel::Intermediate),
            result.topics_view()[10].0@ == "math"@,
            fresh_topic(result.topics_view()[10].1, "math"@, 8, DifficultyLevel::Advanced),
{
    proof {
        reveal_strlit("arrays");
        reveal_strlit("linked_lists");
        reveal_strlit("stacks");
        reveal_strlit("queues");
        reveal_strlit("trees");
        reveal_strlit("graphs");
        reveal_strlit("sorting");
        reveal_strlit("searching");
        reveal_strlit("dynamic_programming");
        reveal_strlit("strings");
        reveal_strlit("math");
        assert("arrays"@.len() == 6);
        assert("linked_lists"@.len() == 12);
        assert("stacks"@.len() == 6);
        assert("queues"@.len() == 6);
        assert("trees"@.len() == 5);
        assert("graphs"@.len() == 6);
        assert("sorting"@.len() == 7);
        assert("searching"@.len() == 9);
        assert("dynamic_programming"@.len() == 19);
        assert("strings"@.len() == 7);
        assert("math"@.len() == 4);
        assert("arrays"@ != "linked_lists"@);
        assert("arrays"@[0] != "stacks"@[0]);
        assert("arrays"@ != "stacks"@);
        assert("linked_lists"@ != "stacks"@);
        assert("arrays"@[0] != "queues"@[0]);
        assert("arrays"@ != "queues"@);
        assert("linked_lists"@ != "queues"@);
        assert("stacks"@[0] != "queues"@[0]);
        assert("stacks"@ != "queues"@);
        assert("arrays"@ != "trees"@);
        assert("linked_lists"@ != "trees"@);
        assert("stacks"@ != "trees"@);
        assert("queues"@ != "trees"@);
        assert("arrays"@[0] != "graphs"@[0]);
        assert("arrays"@ != "graphs"@);
        assert("linked_lists"@ != "graphs"@);
        assert("stacks"@[0] != "graphs"@[0]);
        assert("stacks"@ != "graphs"@);
        assert("queues"@[0] != "graphs"@[0]);
        assert("queues"@ != "graphs"@);
        assert("trees"@ != "graphs"@);
        assert("arrays"@ != "sorting"@);
        assert("linked_lists"@ != "sorting"@);
        assert("stacks"@ != "sorting"@);
        assert("queues"@ != "sorting"@);
        assert("trees"@ != "sorting"@);
        assert("graphs"@ != "sorting"@);
        assert("arrays"@ != "searching"@);
        assert("linked_lists"@ != "searching"@);
        assert("stacks"@ != "searching"@);
        assert("queues"@ != "searching"@);
        assert("trees"@ != "searching"@);
        assert("graphs"@ != "searching"@);
        assert("sorting"@ != "searching"@);
        assert("arrays"@ != "dynamic_programming"@);
        assert("linked_lists"@ != "dynamic_programming"@);
        assert("stacks"@ != "dynamic_programming"@);
        assert("queues"@ != "dynamic_programming"@);
        assert("trees"@ != "dynamic_programming"@);
        assert("graphs"@ != "dynamic_programming"@);
        assert("sorting"@ != "dynamic_programming"@);
        assert("searching"@ != "dynamic_programming"@);
        assert("arrays"@ != "strings"@);
        assert("linked_lists"@ != "strings"@);
        assert("stacks"@ != "strings"@);
        assert("queues"@ != "strings"@);
        assert("trees"@ != "strings"@);
        assert("graphs"@ != "strings"@);
        assert("sorting"@[1] != "strings"@[1]);
        assert("sorting"@ != "strings"@);
        assert("searching"@ != "strings"@);
        assert("dynamic_programming"@ != "strings"@);
        assert("arrays"@ != "math"@);
        assert("linked_lists"@ != "math"@);
        assert("stacks"@ != "math"@);
        assert("queues"@ != "math"@);
        assert("trees"@ != "math"@);
        assert("graphs"@ != "math"@);
        assert("sorting"@ != "math"@);
        assert("searching"@ != "math"@);
        assert("dynamic_programming"@ != "math"@);
        assert("strings"@ != "math"@);
    }
    let mut progress = LearningProgress::new();
    progress.add_topic("arrays", 10, DifficultyLevel::Beginner);
    proof {
        assert(find_topic(progress.topics_view(), "linked_lists"@) == -1) by {
            lemma_find_topic_props(progress.topics_view(), "linked_lists"@);
            if find_topic(progress.topics_view(), "linked_lists"@) >= 0 {
                let r = find_topic(progress.topics_view(), "linked_lists"@);
                assert(progress.topics_view()[r].0@ == "linked_lists"@);
            }
        };
    }
    progress.add_topic("linked_lists", 8, DifficultyLevel::Beginner);
    proof {
        assert(find_topic(progress.topics_view(), "stacks"@) == -1) by {
            lemma_find_topic_props(progress.topics_view(), "stacks"@);
            if find_topic(progress.topics_view(), "stacks"@) >= 0 {
                let r = find_topic(progress.topics_view(), "stacks"@);
                assert(progress.topics_view()[r].0@ == "stacks"@);
            }
        };
    }
    progress.add_topic("stacks", 6, DifficultyLevel::Intermediate);
    proof {
        assert(find_topic(progress.topics_view(), "queues"@) == -1) by {
            lemma_find_topic_props(progress.topics_view(), "queues"@);
            if find_topic(progress.topics_view(), "queues"@) >= 0 {
                let r = find_topic(progress.topics_view(), "queues"@);
                assert(progress.topics_view()[r].0@ == "queues"@);
            }
        };
    }
    progress.add_topic("queues", 6, DifficultyLevel::Intermediate);
    proof {
        assert(find_topic(progress.topics_view(), "trees"@) == -1) by {
            lemma_find_topic_props(progress.topics_view(), "trees"@);
            if find_topic(progress.topics_view(), "trees"@) >= 0 {
                let r = find_topic(progress.topics_view(), "trees"@);
                assert(progress.topics_view()[r].0@ == "trees"@);
            }
        };
    }
    progress.add_topic("trees", 12, DifficultyLevel::Intermediate);
    proof {
        assert(find_topic(progress.topics_view(), "graphs"@) == -1) by {
            lemma_find_topic_props(progress.topics_view(), "graphs"@);
            if find_topic(progress.topics_view(), "graphs"@) >= 0 {
                let r = find_topic(progress.topics_view(), "graphs"@);
                assert(progress.topics_view()[r].0@ == "graphs"@);
            }
        };
    }
    progress.add_topic("graphs", 15, DifficultyLevel::Advanced);
    proof {
        assert(find_topic(progress.topics_view(), "sorting"@) == -1) by {
            lemma_find_topic_props(progress.topics_view(), "sorting"@);
            if find_topic(progress.topics_view(), "sorting"@) >= 0 {
                let r = find_topic(progress.topics_view(), "sorting"@);
                assert(progress.topics_view()[r].0@ == "sorting"@);
            }
        };
    }
    progress.add_topic("sorting", 8, DifficultyLevel::Intermediate);
    proof {
        assert(find_topic(progress.topics_view(), "searching"@) == -1) by {
            lemma_find_topic_props(progress.topics_view(), "searching"@);
            if find_topic(progress.topics_view(), "searching"@) >= 0 {
                let r = find_topic(progress.topics_view(), "searching"@);
                assert(progress.topics_view()[r].0@ == "searching"@);
            }
        };
    }
    progress.add_topic("searching", 5, DifficultyLevel::Beginner);
    proof {
        assert(find_topic(progress.topics_view(), "dynamic_programming"@) == -1) by {
            lemma_find_topic_props(progress.topics_view(), "dynamic_programming"@);
            if find_topic(progress.topics_view(), "dynamic_programming"@) >= 0 {
                let r = find_topic(progress.topics_view(), "dynamic_programming"@);
                assert(progress.topics_view()[r].0@ == "dynamic_programming"@);
            }
        };
    }
    progress.add_topic("dynamic_programming", 20, DifficultyLevel::Advanced);
    proof {
        assert(find_topic(progress.topics_view(), "strings"@) == -1) by {
            lemma_find_topic_props(progress.topics_view(), "strings"@);
            if find_topic(progress.topics_view(), "strings"@) >= 0 {
                let r = find_topic(progress.topics_view(), "strings"@);
                assert(progress.topics_view()[r].0@ == "strings"@);
            }
        };
    }
    progress.add_topic("strings", 10, DifficultyLevel::Intermediate);
    proof {
        assert(find_topic(progress.topics_view(), "math"@) == -1) by {
            lemma_find_topic_props(progress.topics_view(), "math"@);
            if find_topic(progress.topics_view(), "math"@) >= 0 {
                let r = find_topic(progress.topics_view(), "math"@);
                assert(progress.topics_view()[r].0@ == "math"@);
            }
        };
    }
    progress.add_topic("math", 8, DifficultyLevel::Advanced);
    progress
}

} // verus!
