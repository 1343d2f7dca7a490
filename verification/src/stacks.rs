//! Stack exercises: a minimum-tracking stack and monotonic-stack
//! scans for next-greater-element queries.

use vstd::prelude::*;

verus! {

/// Minimum element of a non-empty sequence.
pub open spec fn seq_min(s: Seq<i32>) -> int
    decreases s.len(),
{
    if s.len() <= 1 {
        s[0] as int
    } else {
        let m = seq_min(s.drop_last());
        if s.last() < m {
            s.last() as int
        } else {
            m
        }
    }
}

/// The stack of running minima that a min-stack keeps beside the data
/// stack: a new element is recorded when it is less than or equal to
/// the smallest element so far.
pub open spec fn running_mins(s: Seq<i32>) -> Seq<i32>
    decreases s.len(),
{
    if s.len() == 0 {
        Seq::empty()
    } else {
        let rest = running_mins(s.drop_last());
        if rest.len() == 0 || s.last() <= rest.last() {
            rest.push(s.last())
        } else {
            rest
        }
    }
}

proof fn lemma_running_mins_last(s: Seq<i32>)
    requires
        s.len() > 0,
    ensures
        running_mins(s).len() > 0,
        running_mins(s).last() == seq_min(s),
    decreases s.len(),
{
    if s.len() == 1 {
        assert(s.drop_last().len() == 0);
        assert(running_mins(s.drop_last()) == Seq::<i32>::empty());
    } else {
        lemma_running_mins_last(s.drop_last());
    }
}

/// A stack of integers that also reports its minimum element in
/// constant time.
pub struct MinStack {
    stack: Vec<i32>,
    min_stack: Vec<i32>,
}

impl MinStack {
    /// The elements currently on the stack, bottom first.
    pub closed spec fn view(&self) -> Seq<i32> {
        self.stack@
    }

    /// The auxiliary stack mirrors the running minima of the data.
    pub closed spec fn inv(&self) -> bool {
        self.min_stack@ == running_mins(self.stack@)
    }

    pub fn new() -> (result: MinStack)
        ensures
            result.inv(),
            result.view() == Seq::<i32>::empty(),
    {
        MinStack { stack: Vec::new(), min_stack: Vec::new() }
    }

    pub fn push(&mut self, val: i32)
        requires
            old(self).inv(),
        ensures
            final(self).inv(),
            final(self).view() == old(self).view().push(val),
    {
        self.stack.push(val);
        proof {
            assert(self.stack@.drop_last() =~= old(self).stack@);
        }
        let ml = self.min_stack.len();
        if ml == 0 || val <= self.min_stack[ml - 1] {
            self.min_stack.push(val);
        }
    }

    pub fn pop(&mut self) -> (result: Option<i32>)
        requires
            old(self).inv(),
        ensures
            final(self).inv(),
            match result {
                Some(v) => old(self).view().len() > 0 && v == old(self).view().last()
                    && final(self).view() == old(self).view().drop_last(),
                None => old(self).view().len() == 0 && final(self).view() == old(self).view(),
            },
    {
        match self.stack.pop() {
            Some(val) => {
                let ml = self.min_stack.len();
                proof {
                    lemma_running_mins_last(old(self).stack@);
                    assert(old(self).stack@.drop_last() =~= self.stack@);
                }
                let ghost rest = running_mins(self.stack@);
                if ml > 0 && self.min_stack[ml - 1] == val {
                    self.min_stack.pop();
                    proof {
                        assert(old(self).min_stack@ == rest.push(val)) by {
                            if rest.len() > 0 && val > rest.last() {
                                assert(old(self).min_stack@.last() == rest.last());
                            }
                        };
                        assert(self.min_stack@ =~= rest);
                    }
                } else {
                    proof {
                        if rest.len() == 0 || val <= rest.last() {
                            assert(old(self).min_stack@ == rest.push(val));
                            assert(old(self).min_stack@.last() == val);
                            assert(false);
                        }
                    }
                }
                Some(val)
            },
            None => None,
        }
    }

    pub fn top(&self) -> (result: Option<&i32>)
        ensures
            match result {
                Some(v) => self.view().len() > 0 && *v == self.view().last(),
                None => self.view().len() == 0,
            },
    {
        let n = self.stack.len();
        if n == 0 {
            None
        } else {
            Some(&self.stack[n - 1])
        }
    }

    /// The smallest element on the stack, or `None` when it is empty.
    pub fn get_min(&self) -> (result: Option<&i32>)
        requires
            self.inv(),
        ensures
            match result {
                Some(v) => self.view().len() > 0 && *v == seq_min(self.view()),
                None => self.view().len() == 0,
            },
    {
        let ml = self.min_stack.len();
        if ml == 0 {
            proof {
                if self.stack@.len() > 0 {
                    lemma_running_mins_last(self.stack@);
                }
            }
            None
        } else {
            proof {
                lemma_running_mins_last(self.stack@);
            }
            Some(&self.min_stack[ml - 1])
        }
    }
}

/// First position at or after `j` whose element is strictly greater
/// than `s[i]`; the length of `s` when there is none.
pub open spec fn next_greater_from(s: Seq<i32>, i: int, j: int) -> int
    decreases s.len() - j,
{
    if j < 0 || j >= s.len() {
        s.len() as int
    } else if s[j] > s[i] {
        j
    } else {
        next_greater_from(s, i, j + 1)
    }
}

/// First position after `i` whose element is strictly greater than
/// `s[i]`; the length of `s` when there is none.
pub open spec fn next_greater_index(s: Seq<i32>, i: int) -> int {
    next_greater_from(s, i, i + 1)
}

proof fn lemma_ngf_props(s: Seq<i32>, i: int, j: int)
    requires
        0 <= i < s.len(),
        0 <= j,
    ensures
        j <= next_greater_from(s, i, j) || next_greater_from(s, i, j) == s.len(),
        next_greater_from(s, i, j) <= s.len(),
        next_greater_from(s, i, j) < s.len() ==> s[next_greater_from(s, i, j)] > s[i],
        forall|m: int| j <= m < next_greater_from(s, i, j) ==> !(#[trigger] s[m] > s[i]),
    decreases s.len() - j,
{
    if 0 <= j < s.len() && !(s[j] > s[i]) {
        lemma_ngf_props(s, i, j + 1);
    }
}

proof fn lemma_ngf_at(s: Seq<i32>, i: int, j: int, g: int)
    requires
        0 <= i < s.len(),
        0 <= j <= g < s.len(),
        s[g] > s[i],
        forall|m: int| j <= m < g ==> !(#[trigger] s[m] > s[i]),
    ensures
        next_greater_from(s, i, j) == g,
    decreases g - j,
{
    if j < g {
        lemma_ngf_at(s, i, j + 1, g);
    }
}

/// For every element, the value of the first strictly greater element
/// to its right, or `-1` when no later element is greater.
pub fn next_greater_elements(nums: &[i32]) -> (result: Vec<i32>)
    ensures
        result@.len() == nums@.len(),
        forall|j: int|
            0 <= j < nums@.len() ==> #[trigger] result@[j] == if next_greater_index(nums@, j)
                < nums@.len() {
                nums@[next_greater_index(nums@, j)]
            } else {
                -1i32
            },
{
    let ghost s = nums@;
    let n: usize = nums.len();
    let mut result: Vec<i32> = vec![-1i32; n];
    let mut stack: Vec<usize> = Vec::new();

    let mut i: usize = 0;
    while i < n
        invariant
            s == nums@,
            0 <= i <= n == s.len(),
            result@.len() == n,
            forall|a: int, b: int| 0 <= a < b < stack@.len() ==> stack@[a] < stack@[b],
            forall|a: int|
                0 <= a < stack@.len() ==> stack@[a] < i && next_greater_index(
                    s,
                    #[trigger] stack@[a] as int,
                ) >= i && result@[stack@[a] as int] == -1i32,
            forall|j: int| i <= j < n ==> #[trigger] result@[j] == -1i32,
            forall|j: int|
                0 <= j < i && next_greater_index(s, j) >= i ==> exists|a: int|
                    0 <= a < stack@.len() && stack@[a] == j,
            forall|j: int|
                0 <= j < i && next_greater_index(s, j) < i ==> #[trigger] result@[j] == s[
                    next_greater_index(s, j) ],
        decreases n - i,
    {
        proof {
            lemma_ngf_props(s, i as int, i + 1);
        }
        while stack.len() > 0 && nums[stack[stack.len() - 1]] < nums[i]
            invariant
                s == nums@,
                0 <= i < n == s.len(),
                result@.len() == n,
                forall|a: int, b: int| 0 <= a < b < stack@.len() ==> stack@[a] < stack@[b],
                forall|a: int|
                    0 <= a < stack@.len() ==> stack@[a] < i && next_greater_index(
                        s,
                        #[trigger] stack@[a] as int,
                    ) >= i && result@[stack@[a] as int] == -1i32,
                forall|j: int| i <= j < n ==> #[trigger] result@[j] == -1i32,
                forall|j: int|
                    0 <= j < i && next_greater_index(s, j) > i ==> exists|a: int|
                        0 <= a < stack@.len() && stack@[a] == j,
                forall|j: int|
                    0 <= j < i && next_greater_index(s, j) == i ==> (exists|a: int|
                        0 <= a < stack@.len() && stack@[a] == j) || #[trigger] result@[j] == s[i as int],
                forall|j: int|
                    0 <= j < i && next_greater_index(s, j) < i ==> #[trigger] result@[j] == s[
                        next_greater_index(s, j) ],
            decreases stack@.len(),
        {
            let ghost old_st = stack@;
            let ghost old_result = result@;
            let top = stack[stack.len() - 1];
            stack.pop();
            result[top] = nums[i];
            proof {
                assert(stack@ =~= old_st.drop_last());
                assert(result@ =~= old_result.update(top as int, s[i as int]));
                lemma_ngf_props(s, top as int, top as int + 1);
                assert(next_greater_index(s, top as int) == i) by {
                    lemma_ngf_at(s, top as int, top as int + 1, i as int);
                }
                assert forall|j: int|
                    0 <= j < i && next_greater_index(s, j) > i implies exists|a: int|
                    0 <= a < stack@.len() && stack@[a] == j by {
                    let a0 = choose|a: int| 0 <= a < old_st.len() && old_st[a] == j;
                    assert(a0 != old_st.len() - 1);
                    assert(stack@[a0] == j);
                }
                assert forall|j: int|
                    0 <= j < i && next_greater_index(s, j) == i && !((exists|a: int|
                        0 <= a < stack@.len() && stack@[a] == j)) implies #[trigger] result@[j]
                    == s[i as int] by {
                    if j != top as int {
                        if exists|a: int| 0 <= a < old_st.len() && old_st[a] == j {
                            let a0 = choose|a: int| 0 <= a < old_st.len() && old_st[a] == j;
                            assert(a0 != old_st.len() - 1);
                            assert(stack@[a0] == j);
                        } else {
                            assert(old_result[j] == s[i as int]);
                        }
                    }
                }
            }
        }
        proof {
            // every index still on the stack keeps waiting past i
            assert forall|a: int| 0 <= a < stack@.len() implies next_greater_index(
                s,
                #[trigger] stack@[a] as int,
            ) >= i + 1 by {
                let j = stack@[a] as int;
                let top = stack@[stack@.len() - 1] as int;
                lemma_ngf_props(s, j, j + 1);
                if a < stack@.len() - 1 {
                    assert(!(s[top] > s[j]));
                }
                assert(s[j] >= s[i as int]);
                if next_greater_index(s, j) == i {
                    assert(false);
                }
            }
        }
        let ghost pre_push = stack@;
        stack.push(i);
        proof {
            lemma_ngf_props(s, i as int, i + 1);
            assert forall|j: int|
                0 <= j < i + 1 && next_greater_index(s, j) >= i + 1 implies exists|a: int|
                0 <= a < stack@.len() && stack@[a] == j by {
                if j == i as int {
                    assert(stack@[stack@.len() - 1] == j);
                } else {
                    let a0 = choose|a: int| 0 <= a < pre_push.len() && pre_push[a] == j;
                    assert(stack@[a0] == j);
                }
            }
        }
        i = i + 1;
    }
    proof {
        assert forall|j: int| 0 <= j < n implies #[trigger] result@[j] == if next_greater_index(
            s,
            j,
        ) < s.len() {
            s[next_greater_index(s, j)]
        } else {
            -1i32
        } by {
            lemma_ngf_props(s, j, j + 1);
            if next_greater_index(s, j) >= n {
                let a0 = choose|a: int| 0 <= a < stack@.len() && stack@[a] == j;
            }
        }
    }
    result
}


/// For every day, how many days pass until a strictly warmer one; 0
/// when no later day is warmer.
pub fn daily_temperatures(temperatures: &[i32]) -> (result: Vec<i32>)
    requires
        temperatures@.len() <= i32::MAX,
    ensures
        result@.len() == temperatures@.len(),
        forall|j: int|
            0 <= j < temperatures@.len() ==> #[trigger] result@[j] == if next_greater_index(
                temperatures@,
                j,
            ) < temperatures@.len() {
                next_greater_index(temperatures@, j) - j
            } else {
                0int
            },
{
    let ghost s = temperatures@;
    let n: usize = temperatures.len();
    let mut result: Vec<i32> = vec![0i32; n];
    let mut stack: Vec<usize> = Vec::new();

    let mut i: usize = 0;
    while i < n
        invariant
            s == temperatures@,
            0 <= i <= n == s.len(),
            n <= i32::MAX,
            result@.len() == n,
            forall|a: int, b: int| 0 <= a < b < stack@.len() ==> stack@[a] < stack@[b],
            forall|a: int|
                0 <= a < stack@.len() ==> stack@[a] < i && next_greater_index(
                    s,
                    #[trigger] stack@[a] as int,
                ) >= i && result@[stack@[a] as int] == 0i32,
            forall|j: int| i <= j < n ==> #[trigger] result@[j] == 0i32,
            forall|j: int|
                0 <= j < i && next_greater_index(s, j) >= i ==> exists|a: int|
                    0 <= a < stack@.len() && stack@[a] == j,
            forall|j: int|
                0 <= j < i && next_greater_index(s, j) < i ==> #[trigger] result@[j]
                    == next_greater_index(s, j) - j,
        decreases n - i,
    {
        proof {
            lemma_ngf_props(s, i as int, i + 1);
        }
        while stack.len() > 0 && temperatures[stack[stack.len() - 1]] < temperatures[i]
            invariant
                s == temperatures@,
                0 <= i < n == s.len(),
                n <= i32::MAX,
                result@.len() == n,
                forall|a: int, b: int| 0 <= a < b < stack@.len() ==> stack@[a] < stack@[b],
                forall|a: int|
                    0 <= a < stack@.len() ==> stack@[a] < i && next_greater_index(
                        s,
                        #[trigger] stack@[a] as int,
                    ) >= i && result@[stack@[a] as int] == 0i32,
                forall|j: int| i <= j < n ==> #[trigger] result@[j] == 0i32,
                forall|j: int|
                    0 <= j < i && next_greater_index(s, j) > i ==> exists|a: int|
                        0 <= a < stack@.len() && stack@[a] == j,
                forall|j: int|
                    0 <= j < i && next_greater_index(s, j) == i ==> (exists|a: int|
                        0 <= a < stack@.len() && stack@[a] == j) || #[trigger] result@[j] == i - j,
                forall|j: int|
                    0 <= j < i && next_greater_index(s, j) < i ==> #[trigger] result@[j]
                        == next_greater_index(s, j) - j,
            decreases stack@.len(),
        {
            let ghost old_st = stack@;
            let ghost old_result = result@;
            let top = stack[stack.len() - 1];
            stack.pop();
            result[top] = (i - top) as i32;
            proof {
                assert(stack@ =~= old_st.drop_last());
                assert(result@ =~= old_result.update(top as int, (i - top) as i32));
                lemma_ngf_props(s, top as int, top as int + 1);
                assert(next_greater_index(s, top as int) == i) by {
                    lemma_ngf_at(s, top as int, top as int + 1, i as int);
                }
                assert forall|j: int|
                    0 <= j < i && next_greater_index(s, j) > i implies exists|a: int|
                    0 <= a < stack@.len() && stack@[a] == j by {
                    let a0 = choose|a: int| 0 <= a < old_st.len() && old_st[a] == j;
                    assert(a0 != old_st.len() - 1);
                    assert(stack@[a0] == j);
                }
                assert forall|j: int|
                    0 <= j < i && next_greater_index(s, j) == i && !((exists|a: int|
                        0 <= a < stack@.len() && stack@[a] == j)) implies #[trigger] result@[j] == i
                    - j by {
                    if j != top as int {
                        if exists|a: int| 0 <= a < old_st.len() && old_st[a] == j {
                            let a0 = choose|a: int| 0 <= a < old_st.len() && old_st[a] == j;
                            assert(a0 != old_st.len() - 1);
                            assert(stack@[a0] == j);
                        } else {
                            assert(old_result[j] == i - j);
                        }
                    }
                }
            }
        }
        proof {
            assert forall|a: int| 0 <= a < stack@.len() implies next_greater_index(
                s,
                #[trigger] stack@[a] as int,
            ) >= i + 1 by {
                let j = stack@[a] as int;
                let top = stack@[stack@.len() - 1] as int;
                lemma_ngf_props(s, j, j + 1);
                if a < stack@.len() - 1 {
                    assert(!(s[top] > s[j]));
                }
                assert(s[j] >= s[i as int]);
                if next_greater_index(s, j) == i {
                    assert(false);
                }
            }
        }
        let ghost pre_push = stack@;
        stack.push(i);
        proof {
            lemma_ngf_props(s, i as int, i + 1);
            assert forall|j: int|
                0 <= j < i + 1 && next_greater_index(s, j) >= i + 1 implies exists|a: int|
                0 <= a < stack@.len() && stack@[a] == j by {
                if j == i as int {
                    assert(stack@[stack@.len() - 1] == j);
                } else {
                    let a0 = choose|a: int| 0 <= a < pre_push.len() && pre_push[a] == j;
                    assert(stack@[a0] == j);
                }
            }
        }
        i = i + 1;
    }
    proof {
        assert forall|j: int| 0 <= j < n implies #[trigger] result@[j] == if next_greater_index(
            s,
            j,
        ) < s.len() {
            next_greater_index(s, j) - j
        } else {
            0int
        } by {
            lemma_ngf_props(s, j, j + 1);
            if next_greater_index(s, j) >= n {
                let a0 = choose|a: int| 0 <= a < stack@.len() && stack@[a] == j;
            }
        }
    }
    result
}


/// Opening bracket of one of the three recognised pairs.
pub open spec fn is_open_bracket(c: char) -> bool {
    c == '(' || c == '{' || c == '['
}

/// Closing bracket of one of the three recognised pairs.
pub open spec fn is_close_bracket(c: char) -> bool {
    c == ')' || c == '}' || c == ']'
}

/// `o` opens the pair that `c` closes.
pub open spec fn brackets_match(o: char, c: char) -> bool {
    (o == '(' && c == ')') || (o == '{' && c == '}') || (o == '[' && c == ']')
}

/// Run the bracket machine over `s`, starting from a stack of
/// unmatched openers; `None` means a mismatch or a foreign character.
pub open spec fn bracket_run(s: Seq<char>, st: Seq<char>) -> Option<Seq<char>>
    decreases s.len(),
{
    if s.len() == 0 {
        Some(st)
    } else {
        let c = s[0];
        if is_open_bracket(c) {
            bracket_run(s.drop_first(), st.push(c))
        } else if is_close_bracket(c) && st.len() > 0 && brackets_match(st.last(), c) {
            bracket_run(s.drop_first(), st.drop_last())
        } else {
            None
        }
    }
}

/// A string is balanced when the bracket machine consumes it from an
/// empty stack and ends on an empty stack.
pub open spec fn is_balanced(s: Seq<char>) -> bool {
    bracket_run(s, Seq::empty()) == Some(Seq::<char>::empty())
}

/// Whether a string of brackets is balanced.
pub fn is_valid_parentheses(s: &str) -> (result: bool)
    ensures
        result == is_balanced(s@),
{
    let n: usize = s.unicode_len();
    let mut stack: Vec<char> = Vec::new();
    let mut i: usize = 0;

    proof {
        assert(s@.skip(0) =~= s@);
    }
    while i < n
        invariant
            0 <= i <= n == s@.len(),
            bracket_run(s@, Seq::empty()) == bracket_run(s@.skip(i as int), stack@),
        decreases n - i,
    {
        proof {
            assert(s@.skip(i as int)[0] == s@[i as int]);
            assert(s@.skip(i as int).drop_first() =~= s@.skip(i + 1));
        }
        let ch = s.get_char(i);
        match ch {
            '(' | '{' | '[' => {
                stack.push(ch);
            },
            ')' => {
                let ghost st0: Seq<char> = stack@;
                let top = stack.pop();
                if top != Some('(') {
                    proof {
                        assert(bracket_run(s@.skip(i as int), st0) == None::<Seq<char>>);
                    }
                    return false;
                }
            },
            '}' => {
                let ghost st0: Seq<char> = stack@;
                let top = stack.pop();
                if top != Some('{') {
                    proof {
                        assert(bracket_run(s@.skip(i as int), st0) == None::<Seq<char>>);
                    }
                    return false;
                }
            },
            ']' => {
                let ghost st0: Seq<char> = stack@;
                let top = stack.pop();
                if top != Some('[') {
                    proof {
                        assert(bracket_run(s@.skip(i as int), st0) == None::<Seq<char>>);
                    }
                    return false;
                }
            },
            _ => {
                return false;
            },
        }
        i = i + 1;
    }
    proof {
        assert(s@.skip(n as int) =~= Seq::<char>::empty());
        if stack@.len() == 0 {
            assert(stack@ =~= Seq::<char>::empty());
        }
    }
    stack.len() == 0
}

proof fn lemma_bracket_run_concat(t: Seq<char>, u: Seq<char>, st: Seq<char>)
    ensures
        bracket_run(t + u, st) == match bracket_run(t, st) {
            Some(st2) => bracket_run(u, st2),
            None => None,
        },
    decreases t.len(),
{
    if t.len() == 0 {
        assert(t + u =~= u);
    } else {
        let c = t[0];
        assert((t + u)[0] == c);
        assert((t + u).drop_first() =~= t.drop_first() + u);
        if is_open_bracket(c) {
            lemma_bracket_run_concat(t.drop_first(), u, st.push(c));
        } else if is_close_bracket(c) && st.len() > 0 && brackets_match(st.last(), c) {
            lemma_bracket_run_concat(t.drop_first(), u, st.drop_last());
        }
    }
}

proof fn lemma_bracket_run_frame(t: Seq<char>, st: Seq<char>, st2: Seq<char>, st0: Seq<char>)
    requires
        bracket_run(t, st) == Some(st2),
    ensures
        bracket_run(t, st0 + st) == Some(st0 + st2),
    decreases t.len(),
{
    if t.len() == 0 {
        assert(st == st2);
    } else {
        let c = t[0];
        if is_open_bracket(c) {
            assert(st0 + st.push(c) =~= (st0 + st).push(c));
            lemma_bracket_run_frame(t.drop_first(), st.push(c), st2, st0);
        } else {
            assert(is_close_bracket(c) && st.len() > 0 && brackets_match(st.last(), c));
            assert((st0 + st).last() == st.last());
            assert(st0 + st.drop_last() =~= (st0 + st).drop_last());
            lemma_bracket_run_frame(t.drop_first(), st.drop_last(), st2, st0);
        }
    }
}

/// Law: the empty string is balanced.
pub proof fn lemma_balanced_empty()
    ensures
        is_balanced(Seq::<char>::empty()),
{
}

/// Law: wrapping a balanced string in a matching bracket pair keeps
/// it balanced.
pub proof fn lemma_balanced_wrap(t: Seq<char>, o: char, c: char)
    requires
        is_balanced(t),
        brackets_match(o, c),
    ensures
        is_balanced(seq![o] + t + seq![c]),
{
    let whole = seq![o] + t + seq![c];
    let inner = t + seq![c];
    assert(whole[0] == o);
    assert(is_open_bracket(o));
    assert(whole.drop_first() =~= inner);
    assert(Seq::<char>::empty().push(o) =~= seq![o]);
    lemma_bracket_run_frame(t, Seq::empty(), Seq::empty(), seq![o]);
    assert(seq![o] + Seq::<char>::empty() =~= seq![o]);
    lemma_bracket_run_concat(t, seq![c], seq![o]);
    assert(bracket_run(seq![c], seq![o]) == Some(Seq::<char>::empty())) by {
        let cs: Seq<char> = seq![c];
        let os: Seq<char> = seq![o];
        assert(cs.len() == 1 && cs[0] == c);
        assert(is_close_bracket(c));
        assert(os.len() == 1 && os.last() == o);
        assert(cs.drop_first() =~= Seq::<char>::empty());
        assert(os.drop_last() =~= Seq::<char>::empty());
        assert(bracket_run(cs.drop_first(), os.drop_last()) == Some(Seq::<char>::empty()));
    }
}

/// Law: the concatenation of two balanced strings is balanced.
pub proof fn lemma_balanced_concat(t: Seq<char>, u: Seq<char>)
    requires
        is_balanced(t),
        is_balanced(u),
    ensures
        is_balanced(t + u),
{
    lemma_bracket_run_concat(t, u, Seq::empty());
}


/// Rust's truncating integer division.
pub open spec fn trunc_div(x: int, d: int) -> int {
    if x == 0 {
        0
    } else if x > 0 && d > 0 {
        x / d
    } else if x < 0 && d < 0 {
        (x * -1) / (d * -1)
    } else if x < 0 {
        ((x * -1) / d) * -1
    } else {
        (x / (d * -1)) * -1
    }
}

/// The token is one of the four operators.
pub open spec fn is_op_token(t: Seq<char>) -> bool {
    t.len() == 1 && (t[0] == '+' || t[0] == '-' || t[0] == '*' || t[0] == '/')
}

/// All characters are decimal digits.
pub open spec fn all_digit_chars(t: Seq<char>) -> bool {
    forall|i: int| 0 <= i < t.len() ==> 48 <= #[trigger] t[i] as int <= 57
}

/// The number a string of digits denotes.
pub open spec fn digits_value(t: Seq<char>) -> int
    decreases t.len(),
{
    if t.len() == 0 {
        0
    } else {
        digits_value(t.drop_last()) * 10 + (t.last() as int - 48)
    }
}

/// The token is an optionally signed run of digits.
pub open spec fn is_int_literal(t: Seq<char>) -> bool {
    t.len() >= 1 && if t[0] == '-' || t[0] == '+' {
        t.len() >= 2 && all_digit_chars(t.drop_first())
    } else {
        all_digit_chars(t)
    }
}

/// The integer an optionally signed digit string denotes.
pub open spec fn str_int(t: Seq<char>) -> int {
    if t[0] == '-' {
        -digits_value(t.drop_first())
    } else if t[0] == '+' {
        digits_value(t.drop_first())
    } else {
        digits_value(t)
    }
}

/// The token denotes a value that fits a machine integer.
pub open spec fn is_i32_literal(t: Seq<char>) -> bool {
    is_int_literal(t) && i32::MIN <= str_int(t) <= i32::MAX
}

/// One step of postfix evaluation: apply an operator to the two top
/// stack entries, or push a literal.  `None` marks a fault: a foreign
/// token, a missing operand, division by zero, or a value outside
/// the machine range.
pub open spec fn rpn_step(stack: Seq<int>, t: Seq<char>) -> Option<Seq<int>> {
    if is_op_token(t) {
        if stack.len() >= 2 {
            let a = stack[stack.len() - 2];
            let b = stack[stack.len() - 1];
            let rest = stack.drop_last().drop_last();
            if t[0] == '/' && b == 0 {
                None
            } else {
                let v = if t[0] == '+' {
                    a + b
                } else if t[0] == '-' {
                    a - b
                } else if t[0] == '*' {
                    a * b
                } else {
                    trunc_div(a, b)
                };
                if v < i32::MIN || v > i32::MAX {
                    None
                } else {
                    Some(rest.push(v))
                }
            }
        } else {
            None
        }
    } else if is_i32_literal(t) {
        Some(stack.push(str_int(t)))
    } else {
        None
    }
}

/// Run postfix evaluation over a token list.
pub open spec fn rpn_run(ts: Seq<Seq<char>>, stack: Seq<int>) -> Option<Seq<int>>
    decreases ts.len(),
{
    if ts.len() == 0 {
        Some(stack)
    } else {
        match rpn_step(stack, ts[0]) {
            Some(st2) => rpn_run(ts.drop_first(), st2),
            None => None,
        }
    }
}

proof fn lemma_digits_value_bounds(t: Seq<char>)
    requires
        all_digit_chars(t),
    ensures
        digits_value(t) >= 0,
        t.len() > 0 ==> digits_value(t.drop_last()) <= digits_value(t),
    decreases t.len(),
{
    if t.len() > 0 {
        assert(all_digit_chars(t.drop_last())) by {
            assert(forall|i: int|
                0 <= i < t.len() - 1 ==> #[trigger] t.drop_last()[i] == t[i]);
        }
        lemma_digits_value_bounds(t.drop_last());
    }
}

proof fn lemma_digits_prefix_le(t: Seq<char>, i: int)
    requires
        all_digit_chars(t),
        0 <= i <= t.len(),
    ensures
        0 <= digits_value(t.subrange(0, i)) <= digits_value(t),
    decreases t.len() - i,
{
    assert(all_digit_chars(t.subrange(0, i))) by {
        assert(forall|j: int| 0 <= j < i ==> #[trigger] t.subrange(0, i)[j] == t[j]);
    }
    lemma_digits_value_bounds(t.subrange(0, i));
    if i < t.len() {
        lemma_digits_prefix_le(t, i + 1);
        assert(t.subrange(0, i + 1).drop_last() =~= t.subrange(0, i));
        lemma_digits_value_bounds(t.subrange(0, i + 1));
    } else {
        assert(t.subrange(0, i) =~= t);
    }
}

/// Parse an optionally signed digit string into a machine integer.
fn parse_i32(s: &str) -> (result: i32)
    requires
        is_i32_literal(s@),
    ensures
        result as int == str_int(s@),
{
    let n = s.unicode_len();
    let first = s.get_char(0);
    let negative = first == '-';
    let start: usize = if first == '-' || first == '+' {
        1
    } else {
        0
    };
    let ghost digits = s@.skip(start as int);
    proof {
        if start == 0 {
            assert(digits =~= s@);
        } else {
            assert(digits =~= s@.drop_first());
        }
        lemma_digits_prefix_le(digits, 0);
        assert(digits_value(digits) <= 0x8000_0000) by {
            if negative {
                assert(str_int(s@) == -digits_value(digits));
            } else {
                assert(str_int(s@) == digits_value(digits));
            }
        }
    }
    let mut acc: i64 = 0;
    let mut i: usize = start;
    while i < n
        invariant
            is_i32_literal(s@),
            n == s@.len(),
            start <= i <= n,
            start == if s@[0] == '-' || s@[0] == '+' {
                1int
            } else {
                0int
            },
            digits == s@.skip(start as int),
            all_digit_chars(digits),
            digits_value(digits) <= 0x8000_0000,
            acc as int == digits_value(digits.subrange(0, i - start)),
            0 <= acc <= 0x8000_0000,
        decreases n - i,
    {
        let c = s.get_char(i);
        proof {
            assert(digits[i - start] == s@[i as int]);
            assert(48 <= c as int <= 57);
            assert(digits.subrange(0, i - start + 1).drop_last() =~= digits.subrange(
                0,
                i - start,
            ));
            lemma_digits_prefix_le(digits, i - start + 1);
        }
        acc = acc * 10 + ((c as u32) as i64 - 48);
        i = i + 1;
    }
    proof {
        assert(digits.subrange(0, n - start) =~= digits);
    }
    if negative {
        (-acc) as i32
    } else {
        acc as i32
    }
}

/// The sequence of mathematical values behind a stack of machine
/// integers.
spec fn ints_of(s: Seq<i32>) -> Seq<int> {
    s.map(|_i: int, v: i32| v as int)
}

/// Evaluate an expression in reverse Polish notation.  The token
/// list must evaluate cleanly: every operator finds two operands,
/// every other token is a machine-sized integer literal, no division
/// by zero or overflow occurs, and a result is left on the stack.
pub fn eval_rpn(tokens: &[String]) -> (result: i32)
    requires
        rpn_run(tokens.deep_view(), Seq::empty()) is Some,
        rpn_run(tokens.deep_view(), Seq::empty()).unwrap().len() >= 1,
    ensures
        result as int == rpn_run(tokens.deep_view(), Seq::empty()).unwrap().last(),
{
    let ghost ts = tokens.deep_view();
    let mut stack: Vec<i32> = Vec::new();
    let mut i: usize = 0;
    proof {
        assert(ts.skip(0) =~= ts);
        assert(ints_of(stack@) =~= Seq::<int>::empty());
        assert(ts.len() == tokens@.len());
    }
    while i < tokens.len()
        invariant
            ts == tokens.deep_view(),
            ts.len() == tokens@.len(),
            0 <= i <= ts.len(),
            rpn_run(ts, Seq::empty()) == rpn_run(ts.skip(i as int), ints_of(stack@)),
            rpn_run(ts, Seq::empty()) is Some,
            rpn_run(ts, Seq::empty()).unwrap().len() >= 1,
        decreases ts.len() - i,
    {
        let ghost cur = ints_of(stack@);
        proof {
            assert(tokens@[i as int].deep_view() =~= tokens@[i as int]@);
            assert(ts.skip(i as int)[0] == ts[i as int]);
            assert(ts.skip(i as int).drop_first() =~= ts.skip(i + 1));
            assert(ts[i as int] == tokens@[i as int]@);
            if rpn_step(cur, ts[i as int]) is None {
                assert(rpn_run(ts.skip(i as int), cur) is None);
                assert(false);
            }
        }
        let token = &tokens[i];
        let tn = token.as_str().unicode_len();
        let mut handled = false;
        if tn == 1 {
            let c = token.as_str().get_char(0);
            if c == '+' || c == '-' || c == '*' || c == '/' {
                handled = true;
                proof {
                    assert(is_op_token(ts[i as int]));
                    assert(cur.len() >= 2);
                    assert(stack@.len() == cur.len());
                }
                let b = stack.pop().unwrap();
                let a = stack.pop().unwrap();
                proof {
                    assert(a as int == cur[cur.len() - 2] && b as int == cur[cur.len() - 1]);
                    assert(ints_of(stack@) =~= cur.drop_last().drop_last());
                }
                let v: i32 = if c == '+' {
                    proof {
                        assert(i32::MIN <= a as int + b as int <= i32::MAX);
                    }
                    a + b
                } else if c == '-' {
                    proof {
                        assert(i32::MIN <= a as int - b as int <= i32::MAX);
                    }
                    a - b
                } else if c == '*' {
                    proof {
                        assert(i32::MIN <= a as int * b as int <= i32::MAX);
                    }
                    a * b
                } else {
                    proof {
                        assert(b != 0);
                        assert(i32::MIN <= trunc_div(a as int, b as int) <= i32::MAX);
                    }
                    a.checked_div(b).unwrap()
                };
                stack.push(v);
                proof {
                    let st2 = rpn_step(cur, ts[i as int]).unwrap();
                    assert(ints_of(stack@) =~= st2);
                }
            }
        }
        if !handled {
            proof {
                assert(!is_op_token(ts[i as int]));
                assert(is_i32_literal(ts[i as int]));
            }
            let v = parse_i32(token.as_str());
            stack.push(v);
            proof {
                let st2 = rpn_step(cur, ts[i as int]).unwrap();
                assert(ints_of(stack@) =~= st2);
            }
        }
        i = i + 1;
    }
    proof {
        assert(ts.skip(ts.len() as int) =~= Seq::<Seq<char>>::empty());
        assert(rpn_run(ts, Seq::empty()).unwrap() == ints_of(stack@));
        assert(stack@.len() == ints_of(stack@).len());
        assert(ints_of(stack@).last() == stack@.last() as int);
    }
    let r = stack.pop().unwrap();
    r
}


/// Smallest bar height among `s[l..=r]`.
pub open spec fn range_min(s: Seq<i32>, l: int, r: int) -> int
    decreases r - l,
{
    if r <= l {
        s[l] as int
    } else {
        let m = range_min(s, l, r - 1);
        if s[r] < m {
            s[r] as int
        } else {
            m
        }
    }
}

/// Area of the rectangle that spans bars `l..=r` at the height of
/// the smallest bar among them.
pub open spec fn rect_area(s: Seq<i32>, l: int, r: int) -> int {
    (r - l + 1) * range_min(s, l, r)
}

proof fn lemma_range_min_ge(s: Seq<i32>, l: int, r: int, x: int)
    requires
        0 <= l <= x <= r < s.len(),
    ensures
        range_min(s, l, r) <= s[x],
    decreases r - l,
{
    if x < r {
        lemma_range_min_ge(s, l, r - 1, x);
    }
}

proof fn lemma_range_min_eq(s: Seq<i32>, l: int, r: int, t: int)
    requires
        0 <= l <= t <= r < s.len(),
        forall|x: int| l <= x <= r ==> s[t] <= #[trigger] s[x],
    ensures
        range_min(s, l, r) == s[t],
    decreases r - l,
{
    lemma_range_min_ge(s, l, r, t);
    if l < r {
        if t < r {
            lemma_range_min_eq(s, l, r - 1, t);
        } else {
            let m = range_min(s, l, r - 1);
            lemma_range_min_attained(s, l, r - 1);
        }
    }
}

proof fn lemma_range_min_attained(s: Seq<i32>, l: int, r: int)
    requires
        0 <= l <= r < s.len(),
    ensures
        exists|x: int| l <= x <= r && #[trigger] s[x] == range_min(s, l, r),
    decreases r - l,
{
    if l < r {
        lemma_range_min_attained(s, l, r - 1);
        let x0 = choose|x: int| l <= x <= r - 1 && #[trigger] s[x] == range_min(s, l, r - 1);
        if s[r] < range_min(s, l, r - 1) {
            assert(s[r] == range_min(s, l, r));
        } else {
            assert(s[x0] == range_min(s, l, r));
        }
    } else {
        assert(s[l] == range_min(s, l, r));
    }
}

/// Position of the first smallest bar in `s[l..=r]`.
pub open spec fn first_argmin(s: Seq<i32>, l: int, r: int) -> int
    decreases r - l,
{
    if r <= l {
        l
    } else {
        let rest = first_argmin(s, l + 1, r);
        if s[l] <= s[rest] {
            l
        } else {
            rest
        }
    }
}

proof fn lemma_first_argmin(s: Seq<i32>, l: int, r: int)
    requires
        0 <= l <= r < s.len(),
    ensures
        l <= first_argmin(s, l, r) <= r,
        s[first_argmin(s, l, r)] == range_min(s, l, r),
        forall|m: int| l <= m < first_argmin(s, l, r) ==> #[trigger] s[m] > s[first_argmin(s, l, r)],
        forall|m: int| l <= m <= r ==> s[first_argmin(s, l, r)] <= #[trigger] s[m],
    decreases r - l,
{
    if l < r {
        lemma_first_argmin(s, l + 1, r);
        let fa = first_argmin(s, l, r);
        lemma_range_min_eq(s, l, r, fa);
    }
}

/// The bookkeeping of the histogram scan.  Every popped bar `t`
/// remembers the bounds `(lt, rt)` of the widest span in which it was
/// the smallest bar, and the recorded area is already covered.
#[verifier::opaque]
spec fn popped_ok(
    h: Seq<i32>,
    popped: Map<int, (int, int)>,
    max_area: int,
    n: int,
) -> bool {
    forall|t: int| #[trigger] popped.dom().contains(t) ==> {
        let lt = popped[t].0;
        let rt = popped[t].1;
        &&& -1 <= lt < t < rt <= n
        &&& 0 <= t < n
        &&& (forall|x: int| lt < x < rt && 0 <= x < n ==> h[x] >= h[t])
        &&& (rt < n ==> h[rt] < h[t])
        &&& (lt >= 0 ==> h[lt] <= h[t])
        &&& h[t] * (rt - lt - 1) <= max_area
    }
}

/// The monotonic stack of the histogram scan: positions rise, their
/// heights never fall, and the bars strictly between two neighbours
/// are strictly taller than the higher neighbour.
#[verifier::opaque]
spec fn hstack_ok(h: Seq<i32>, s: Seq<usize>, i: int) -> bool {
    &&& forall|a: int, b: int| 0 <= a < b < s.len() ==> s[a] < s[b]
    &&& forall|a: int| 0 <= a < s.len() ==> (#[trigger] s[a] as int) < i
    &&& forall|a: int, b: int|
        0 <= a < b < s.len() ==> h[#[trigger] s[a] as int] <= h[#[trigger] s[b] as int]
    &&& forall|a: int, x: int|
        #![trigger s[a], h[x]]
        0 <= a < s.len() && (if a == 0 {
            -1int
        } else {
            s[a - 1] as int
        }) < x < s[a] as int ==> h[x] > h[s[a] as int]
}

proof fn lemma_popped_grow(
    h: Seq<i32>,
    popped: Map<int, (int, int)>,
    max0: int,
    max1: int,
    n: int,
)
    requires
        popped_ok(h, popped, max0, n),
        max0 <= max1,
    ensures
        popped_ok(h, popped, max1, n),
{
    reveal(popped_ok);
}

proof fn lemma_popped_insert(
    h: Seq<i32>,
    popped: Map<int, (int, int)>,
    max1: int,
    n: int,
    t: int,
    lt: int,
    rt: int,
)
    requires
        popped_ok(h, popped, max1, n),
        -1 <= lt < t < rt <= n,
        0 <= t < n,
        forall|x: int| lt < x < rt && 0 <= x < n ==> h[x] >= h[t],
        rt < n ==> h[rt] < h[t],
        lt >= 0 ==> h[lt] <= h[t],
        h[t] * (rt - lt - 1) <= max1,
    ensures
        popped_ok(h, popped.insert(t, (lt, rt)), max1, n),
{
    reveal(popped_ok);
    let p2 = popped.insert(t, (lt, rt));
    assert forall|u: int| #[trigger] p2.dom().contains(u) implies {
        let lu = p2[u].0;
        let ru = p2[u].1;
        &&& -1 <= lu < u < ru <= n
        &&& 0 <= u < n
        &&& (forall|x: int| lu < x < ru && 0 <= x < n ==> h[x] >= h[u])
        &&& (ru < n ==> h[ru] < h[u])
        &&& (lu >= 0 ==> h[lu] <= h[u])
        &&& h[u] * (ru - lu - 1) <= max1
    } by {
        if u != t {
            assert(popped.dom().contains(u));
            assert(p2[u] == popped[u]);
        }
    }
}

proof fn lemma_hstack_pop(h: Seq<i32>, s: Seq<usize>, i: int)
    requires
        hstack_ok(h, s, i),
        s.len() > 0,
    ensures
        hstack_ok(h, s.drop_last(), i),
{
    reveal(hstack_ok);
    let s2 = s.drop_last();
    assert(forall|a: int| 0 <= a < s2.len() ==> s2[a] == s[a]);
}

proof fn lemma_hstack_top(h: Seq<i32>, s: Seq<usize>, i: int, lt: int)
    requires
        hstack_ok(h, s, i),
        s.len() > 0,
        lt == (if s.len() >= 2 {
            s[s.len() - 2] as int
        } else {
            -1int
        }),
    ensures
        lt < (s[s.len() - 1] as int),
        (s[s.len() - 1] as int) < i,
        forall|x: int| lt < x < s[s.len() - 1] as int ==> #[trigger] h[x] > h[s[s.len() - 1] as int],
        lt >= 0 ==> h[lt] <= h[s[s.len() - 1] as int],
{
    reveal(hstack_ok);
    assert forall|x: int| lt < x < s[s.len() - 1] as int implies #[trigger] h[x] > h[s[s.len()
        - 1] as int] by {
        assert(0 <= s.len() - 1 < s.len() && (if s.len() - 1 == 0 {
            -1int
        } else {
            s[s.len() - 2] as int
        }) < x < s[s.len() - 1] as int);
    }
}

proof fn lemma_hstack_push(h: Seq<i32>, s: Seq<usize>, i: int)
    requires
        hstack_ok(h, s, i),
        0 <= i < h.len(),
        s.len() > 0 ==> h[s[s.len() - 1] as int] <= h[i as int],
        forall|x: int|
            (if s.len() > 0 {
                s[s.len() - 1] as int
            } else {
                -1int
            }) < x < i ==> #[trigger] h[x] > h[i as int],
        i <= usize::MAX,
    ensures
        hstack_ok(h, s.push(i as usize), i + 1),
{
    reveal(hstack_ok);
    let s2 = s.push(i as usize);
    assert(forall|a: int| 0 <= a < s.len() ==> s2[a] == s[a]);
    assert(s2[s2.len() - 1] == i as usize);
    assert forall|a: int, b: int|
        0 <= a < b < s2.len() implies h[#[trigger] s2[a] as int] <= h[#[trigger] s2[b] as int] by {
        if b < s2.len() - 1 {
        } else if a < s.len() - 1 {
            assert(h[s[a] as int] <= h[s[s.len() - 1] as int]);
        }
    }
    assert forall|a: int, x: int|
        #![trigger s2[a], h[x]]
        0 <= a < s2.len() && (if a == 0 {
            -1int
        } else {
            s2[a - 1] as int
        }) < x < s2[a] as int implies h[x] > h[s2[a] as int] by {
        if a < s.len() {
            assert(s2[a] == s[a]);
        }
    }
}

proof fn lemma_hstack_empty(h: Seq<i32>, i: int)
    ensures
        hstack_ok(h, Seq::<usize>::empty(), i),
{
    reveal(hstack_ok);
}

proof fn lemma_popped_entry(
    h: Seq<i32>,
    popped: Map<int, (int, int)>,
    max_area: int,
    n: int,
    t: int,
)
    requires
        popped_ok(h, popped, max_area, n),
        popped.dom().contains(t),
    ensures
        ({
            let lt = popped[t].0;
            let rt = popped[t].1;
            &&& -1 <= lt < t < rt <= n
            &&& 0 <= t < n
            &&& (forall|x: int| lt < x < rt && 0 <= x < n ==> h[x] >= h[t])
            &&& (rt < n ==> h[rt] < h[t])
            &&& (lt >= 0 ==> h[lt] <= h[t])
            &&& h[t] * (rt - lt - 1) <= max_area
        }),
{
    reveal(popped_ok);
}

proof fn lemma_popped_empty(h: Seq<i32>, max_area: int, n: int)
    ensures
        popped_ok(h, Map::<int, (int, int)>::empty(), max_area, n),
{
    reveal(popped_ok);
}

/// Largest rectangle that fits under the histogram, or 0 when every
/// rectangle has non-positive area.
#[verifier::rlimit(100)]
pub fn largest_rectangle_area(heights: &[i32]) -> (result: i32)
    requires
        heights@.len() <= i32::MAX,
        forall|l: int, r: int|
            0 <= l <= r < heights@.len() ==> i32::MIN <= #[trigger] rect_area(heights@, l, r)
                <= i32::MAX,
    ensures
        result >= 0,
        forall|l: int, r: int|
            0 <= l <= r < heights@.len() ==> #[trigger] rect_area(heights@, l, r) <= result,
        result == 0 || exists|l: int, r: int|
            0 <= l <= r < heights@.len() && #[trigger] rect_area(heights@, l, r) == result,
{
    let ghost h = heights@;
    let n: usize = heights.len();
    let mut stack: Vec<usize> = Vec::new();
    let mut max_area: i32 = 0;
    let ghost mut popped: Map<int, (int, int)> = Map::empty();
    proof {
        lemma_hstack_empty(h, 0);
        lemma_popped_empty(h, 0, n as int);
    }

    let mut i: usize = 0;
    while i <= n
        invariant
            h == heights@,
            n == h.len() <= i32::MAX,
            forall|l: int, r: int|
                0 <= l <= r < n ==> i32::MIN <= #[trigger] rect_area(h, l, r) <= i32::MAX,
            0 <= i <= n + 1,
            i == n + 1 ==> stack@.len() == 0,
            forall|a: int| 0 <= a < stack@.len() ==> (#[trigger] stack@[a] as int) < n,
            hstack_ok(h, stack@, if i <= n {
                i as int
            } else {
                n as int
            }),
            popped_ok(h, popped, max_area as int, n as int),
            forall|t: int|
                0 <= t < i && t < n && !stack@.contains(t as usize) ==> #[trigger] popped.dom().contains(t),
            max_area >= 0,
            max_area == 0 || exists|l: int, r: int|
                0 <= l <= r < n && #[trigger] rect_area(h, l, r) == max_area,
            stack@.len() > 0 && i <= n ==> forall|x: int|
                (stack@[stack@.len() - 1] as int) < x < i ==> #[trigger] h[x] >= h[stack@[stack@.len() - 1] as int],
            i < n ==> forall|x: int|
                (if stack@.len() > 0 {
                    stack@[stack@.len() - 1] as int
                } else {
                    -1int
                }) < x < i ==> #[trigger] h[x] > h[i as int],
        decreases n + 1 - i,
    {
        while stack.len() > 0 && (i == n || heights[stack[stack.len() - 1]] > heights[i])
            invariant
                h == heights@,
                n == h.len() <= i32::MAX,
                forall|l: int, r: int|
                    0 <= l <= r < n ==> i32::MIN <= #[trigger] rect_area(h, l, r) <= i32::MAX,
                0 <= i <= n,
                forall|a: int| 0 <= a < stack@.len() ==> (#[trigger] stack@[a] as int) < n,
                hstack_ok(h, stack@, i as int),
                popped_ok(h, popped, max_area as int, n as int),
                forall|t: int|
                    0 <= t < i && t < n && !stack@.contains(t as usize) ==> #[trigger] popped.dom().contains(t),
                max_area >= 0,
                max_area == 0 || exists|l: int, r: int|
                    0 <= l <= r < n && #[trigger] rect_area(h, l, r) == max_area,
                stack@.len() > 0 ==> forall|x: int|
                    (stack@[stack@.len() - 1] as int) < x < i ==> #[trigger] h[x] >= h[stack@[stack@.len() - 1] as int],
                i < n ==> forall|x: int|
                    (if stack@.len() > 0 {
                        stack@[stack@.len() - 1] as int
                    } else {
                        -1int
                    }) < x < i ==> #[trigger] h[x] > h[i as int],
            decreases stack@.len(),
        {
            let ghost s0 = stack@;
            let top = stack[stack.len() - 1];
            stack.pop();
            let ghost t = top as int;
            let ghost lt: int = if stack@.len() > 0 {
                stack@[stack@.len() - 1] as int
            } else {
                -1
            };
            let ghost rt: int = i as int;
            proof {
                assert(stack@ =~= s0.drop_last());
                lemma_hstack_top(h, s0, i as int, lt);
                lemma_hstack_pop(h, s0, i as int);
                // every bar strictly between lt and rt is at least as tall as bar t
                assert forall|x: int| lt < x < rt && 0 <= x < n implies #[trigger] h[x] >= h[t] by {
                    if x < t {
                        assert(h[x] > h[t]);
                    } else if x > t {
                        assert(h[x] >= h[t]);
                    }
                }
                lemma_range_min_eq(h, lt + 1, rt - 1, t);
                assert(rect_area(h, lt + 1, rt - 1) == ((rt - 1) - (lt + 1) + 1) * range_min(
                    h,
                    lt + 1,
                    rt - 1,
                ));
                assert(rect_area(h, lt + 1, rt - 1) == (rt - lt - 1) * h[t]) by (nonlinear_arith)
                    requires
                        rect_area(h, lt + 1, rt - 1) == ((rt - 1) - (lt + 1) + 1) * range_min(
                            h,
                            lt + 1,
                            rt - 1,
                        ),
                        range_min(h, lt + 1, rt - 1) == h[t],
                ;
            }
            let width: i32 = if stack.len() == 0 {
                i as i32
            } else {
                (i - stack[stack.len() - 1] - 1) as i32
            };
            let hv = heights[top];
            proof {
                assert(width as int == rt - lt - 1);
                assert(hv as int == h[t]);
                assert(0 <= lt + 1 <= rt - 1 < n);
                assert((hv as int) * (width as int) == rect_area(h, lt + 1, rt - 1))
                    by (nonlinear_arith)
                    requires
                        hv as int == h[t],
                        width as int == rt - lt - 1,
                        rect_area(h, lt + 1, rt - 1) == (rt - lt - 1) * h[t],
                ;
                assert(i32::MIN <= rect_area(h, lt + 1, rt - 1) <= i32::MAX);
                assert(i32::MIN <= (hv as int) * (width as int) <= i32::MAX);
            }
            let ghost old_max = max_area;
            let area = hv * width;
            if area > max_area {
                max_area = area;
            }
            proof {
                lemma_popped_grow(h, popped, old_max as int, max_area as int, n as int);
                lemma_popped_insert(
                    h,
                    popped,
                    max_area as int,
                    n as int,
                    t,
                    lt,
                    rt,
                );
                popped = popped.insert(t, (lt, rt));
                lemma_hstack_pop(h, s0, i as int);
                assert forall|u: int|
                    0 <= u < i && u < n && !stack@.contains(u as usize)
                    implies #[trigger] popped.dom().contains(u) by {
                    if u != t {
                        if s0.contains(u as usize) {
                            let a = choose|a: int| 0 <= a < s0.len() && s0[a] == u as usize;
                            if a < s0.len() - 1 {
                                assert(stack@[a] == s0[a]);
                                assert(stack@.contains(u as usize));
                            } else {
                                assert(s0[a] == top);
                            }
                            assert(false);
                        }
                    }
                }
                if stack@.len() > 0 {
                    assert forall|x: int|
                        (stack@[stack@.len() - 1] as int) < x < i implies #[trigger] h[x] >= h[stack@[stack@.len() - 1] as int] by {
                        if x < t {
                            assert(h[x] > h[t]);
                        } else if x == t {
                        } else {
                            assert(h[x] >= h[t]);
                        }
                    }
                }
                if i < n {
                    assert forall|x: int|
                        (if stack@.len() > 0 {
                            stack@[stack@.len() - 1] as int
                        } else {
                            -1int
                        }) < x < i implies #[trigger] h[x] > h[i as int] by {
                        if x < t {
                            assert(h[x] > h[t]);
                            assert(h[t] > h[i as int]);
                        } else if x == t {
                            assert(h[t] > h[i as int]);
                        }
                    }
                }
            }
        }
        if i < n {
            let ghost pre = stack@;
            stack.push(i);
            proof {
                assert(stack@ =~= pre.push(i));
                lemma_hstack_push(h, pre, i as int);
                assert forall|u: int|
                    0 <= u < i + 1 && u < n && !stack@.contains(u as usize)
                    implies #[trigger] popped.dom().contains(u) by {
                    if u != i as int {
                        if pre.contains(u as usize) {
                            let a = choose|a: int| 0 <= a < pre.len() && pre[a] == u as usize;
                            assert(stack@[a] == pre[a]);
                        }
                    } else {
                        assert(stack@[stack@.len() - 1] == i);
                    }
                }
            }
        } else {
            proof {
                assert(stack@ =~= Seq::<usize>::empty());
                lemma_hstack_empty(h, n as int);
            }
        }
        i = i + 1;
    }
    proof {
        assert forall|l: int, r: int| 0 <= l <= r < n implies #[trigger] rect_area(h, l, r)
            <= max_area by {
            lemma_first_argmin(h, l, r);
            let b = first_argmin(h, l, r);
            let mn = range_min(h, l, r);
            if mn <= 0 {
                assert(rect_area(h, l, r) <= 0) by (nonlinear_arith)
                    requires
                        rect_area(h, l, r) == (r - l + 1) * mn,
                        mn <= 0,
                        r - l + 1 >= 1,
                ;
            } else {
                assert(popped.dom().contains(b));
                lemma_popped_entry(h, popped, max_area as int, n as int, b);
                let lb = popped[b].0;
                let rb = popped[b].1;
                if lb >= l {
                    assert(h[lb] <= h[b]);
                    assert(h[lb] > h[b]);
                }
                if rb <= r {
                    assert(h[rb] < h[b]);
                    assert(h[b] <= h[rb]);
                }
                assert(h[b] * (r - l + 1) <= h[b] * (rb - lb - 1)) by (nonlinear_arith)
                    requires
                        h[b] > 0,
                        r - l + 1 <= rb - lb - 1,
                ;
            }
        }
    }
    max_area
}


/// `s` repeated `k` times.
pub open spec fn repeat_seq(s: Seq<char>, k: int) -> Seq<char>
    decreases k,
{
    if k <= 0 {
        Seq::empty()
    } else {
        repeat_seq(s, k - 1) + s
    }
}

/// One step of the nested-repetition decoder, reading one character.
/// The state holds the enclosing contexts, the text of the current
/// context, and the count being read.  `None` marks a fault: a `]`
/// with no open `[`, or a count too large for a machine integer.
pub open spec fn decode_step(
    st: (Seq<(Seq<char>, int)>, Seq<char>, int),
    c: char,
) -> Option<(Seq<(Seq<char>, int)>, Seq<char>, int)> {
    if c == '[' {
        Some((st.0.push((st.1, st.2)), Seq::empty(), 0))
    } else if c == ']' {
        if st.0.len() > 0 {
            Some((st.0.drop_last(), st.0.last().0 + repeat_seq(st.1, st.0.last().1), st.2))
        } else {
            None
        }
    } else if 48 <= c as int <= 57 {
        let v = st.2 * 10 + (c as int - 48);
        if v > i32::MAX {
            None
        } else {
            Some((st.0, st.1, v))
        }
    } else {
        Some((st.0, st.1.push(c), st.2))
    }
}

/// Run the decoder over a character sequence.
pub open spec fn decode_run(
    cs: Seq<char>,
    st: (Seq<(Seq<char>, int)>, Seq<char>, int),
) -> Option<(Seq<(Seq<char>, int)>, Seq<char>, int)>
    decreases cs.len(),
{
    if cs.len() == 0 {
        Some(st)
    } else {
        match decode_step(st, cs[0]) {
            Some(st2) => decode_run(cs.drop_first(), st2),
            None => None,
        }
    }
}

/// The decoder state after the whole input, starting from nothing.
pub open spec fn decode_final(s: Seq<char>) -> Option<(Seq<(Seq<char>, int)>, Seq<char>, int)> {
    decode_run(s, (Seq::empty(), Seq::empty(), 0))
}

/// Relies on String::from_iter over chars: the string holds exactly
/// the characters of the vector, in order.
#[verifier::external_body]
fn chars_to_string(v: &Vec<char>) -> (result: String)
    ensures
        result@ == v@,
{
    v.iter().collect()
}

/// The ghost view of the decoder stack held by the program.
spec fn dstack_view(st: Seq<(Vec<char>, i32)>) -> Seq<(Seq<char>, int)> {
    st.map(|_i: int, p: (Vec<char>, i32)| (p.0@, p.1 as int))
}

/// Decode a string in the `count[text]` notation, where a bracketed
/// text is repeated `count` times and nesting is allowed.  Every `]`
/// must close an earlier `[`, and no count may exceed a machine
/// integer; unclosed contexts are allowed and simply discarded, as
/// happens when the input ends early.
pub fn decode_string(s: &str) -> (result: String)
    requires
        decode_final(s@) is Some,
    ensures
        result@ == decode_final(s@).unwrap().1,
{
    let ghost full = s@;
    let n = s.unicode_len();
    let mut stack: Vec<(Vec<char>, i32)> = Vec::new();
    let mut current: Vec<char> = Vec::new();
    let mut number: i32 = 0;

    let mut i: usize = 0;
    proof {
        assert(full.skip(0) =~= full);
        assert(dstack_view(stack@) =~= Seq::<(Seq<char>, int)>::empty());
    }
    while i < n
        invariant
            full == s@,
            n == full.len(),
            0 <= i <= n,
            number >= 0,
            decode_final(full) == decode_run(
                full.skip(i as int),
                (dstack_view(stack@), current@, number as int),
            ),
            decode_final(full) is Some,
        decreases n - i,
    {
        let ghost st = (dstack_view(stack@), current@, number as int);
        proof {
            assert(full.skip(i as int)[0] == full[i as int]);
            assert(full.skip(i as int).drop_first() =~= full.skip(i + 1));
            if decode_step(st, full[i as int]) is None {
                assert(decode_run(full.skip(i as int), st) is None);
            }
        }
        let c = s.get_char(i);
        if c == '[' {
            let mut done: Vec<char> = Vec::new();
            std::mem::swap(&mut current, &mut done);
            stack.push((done, number));
            number = 0;
            proof {
                let st2 = decode_step(st, full[i as int]).unwrap();
                assert(dstack_view(stack@) =~= st2.0);
            }
        } else if c == ']' {
            proof {
                assert(st.0.len() > 0);
                assert(stack@.len() > 0);
            }
            let ghost st2 = decode_step(st, full[i as int]).unwrap();
            let pair = stack.pop().unwrap();
            let mut rebuilt = pair.0;
            let count = pair.1;
            let ghost piece = current@;
            let mut k: i32 = 0;
            while k < count
                invariant
                    0 <= k,
                    count >= 0 ==> k <= count,
                    count < 0 ==> k == 0,
                    piece == current@,
                    rebuilt@ == pair.0@ + repeat_seq(piece, k as int),
                decreases count - k,
            {
                rebuilt.extend_from_slice(current.as_slice());
                proof {
                    assert(rebuilt@ =~= pair.0@ + repeat_seq(piece, k + 1));
                }
                k = k + 1;
            }
            proof {
                if count <= 0 {
                    assert(repeat_seq(piece, count as int) =~= Seq::<char>::empty());
                }
                assert(rebuilt@ =~= pair.0@ + repeat_seq(piece, count as int));
                assert(dstack_view(stack@) =~= st2.0);
                assert((dstack_view(stack@), rebuilt@, number as int) == st2);
            }
            current = rebuilt;
        } else {
            let cv = c as u32;
            if cv >= 48 && cv <= 57 {
                proof {
                    assert(number as int * 10 + (c as int - 48) <= i32::MAX);
                }
                number = number * 10 + ((cv - 48) as i32);
            } else {
                current.push(c);
            }
        }
        i = i + 1;
    }
    proof {
        assert(full.skip(n as int) =~= Seq::<char>::empty());
    }
    chars_to_string(&current)
}


/// Position of the first path separator at or after `j`, or the
/// length when there is none.
pub open spec fn slash_from(s: Seq<char>, j: int) -> int
    decreases s.len() - j,
{
    if j < 0 || j >= s.len() {
        s.len() as int
    } else if s[j] == '/' {
        j
    } else {
        slash_from(s, j + 1)
    }
}

proof fn lemma_slash_from_props(s: Seq<char>, j: int)
    requires
        0 <= j,
    ensures
        j <= slash_from(s, j) || slash_from(s, j) == s.len(),
        slash_from(s, j) <= s.len(),
        slash_from(s, j) < s.len() ==> s[slash_from(s, j)] == '/',
        forall|m: int| j <= m < slash_from(s, j) ==> #[trigger] s[m] != '/',
    decreases s.len() - j,
{
    if 0 <= j < s.len() && s[j] != '/' {
        lemma_slash_from_props(s, j + 1);
    }
}

proof fn lemma_slash_from_at(s: Seq<char>, j: int, g: int)
    requires
        0 <= j <= g <= s.len(),
        g < s.len() ==> s[g] == '/',
        g == s.len() || g < s.len(),
        forall|m: int| j <= m < g ==> #[trigger] s[m] != '/',
    ensures
        g < s.len() ==> slash_from(s, j) == g,
        g == s.len() ==> slash_from(s, j) == s.len(),
    decreases g - j,
{
    if j < g {
        lemma_slash_from_at(s, j + 1, g);
    }
}

/// The pieces of `s` between its separators, in order; a separator
/// at either end or two in a row contribute empty pieces.
pub open spec fn split_slash(s: Seq<char>) -> Seq<Seq<char>>
    decreases s.len(),
{
    let i = slash_from(s, 0);
    if i < 0 || i >= s.len() {
        seq![s]
    } else {
        seq![s.subrange(0, i)] + split_slash(s.subrange(i + 1, s.len() as int))
    }
}

/// Apply one path component to the stack of directory names: empty
/// and `.` components vanish, `..` discards the deepest name, and
/// anything else becomes a deeper name.
pub open spec fn path_step(st: Seq<Seq<char>>, comp: Seq<char>) -> Seq<Seq<char>> {
    if comp.len() == 0 || comp == seq!['.'] {
        st
    } else if comp == seq!['.', '.'] {
        if st.len() > 0 {
            st.drop_last()
        } else {
            st
        }
    } else {
        st.push(comp)
    }
}

/// Fold the components of a path into a directory stack.
pub open spec fn path_run(comps: Seq<Seq<char>>, st: Seq<Seq<char>>) -> Seq<Seq<char>>
    decreases comps.len(),
{
    if comps.len() == 0 {
        st
    } else {
        path_run(comps.drop_first(), path_step(st, comps[0]))
    }
}

/// Write a directory stack back as an absolute path.
pub open spec fn render_path(st: Seq<Seq<char>>) -> Seq<char>
    decreases st.len(),
{
    if st.len() == 0 {
        Seq::empty()
    } else {
        render_path(st.drop_last()) + seq!['/'] + st.last()
    }
}

/// The simplified form of an absolute path: resolve `.` and `..`,
/// collapse repeated separators, and drop a trailing separator; the
/// root alone is rendered as a single separator.
pub open spec fn simplified_path(s: Seq<char>) -> Seq<char> {
    let st = path_run(split_slash(s), Seq::empty());
    if st.len() == 0 {
        seq!['/']
    } else {
        render_path(st)
    }
}

/// Simplify an absolute path with `.`, `..` and repeated separators.
pub fn simplify_path(path: &str) -> (result: String)
    ensures
        result@ == simplified_path(path@),
{
    let ghost full = path@;
    let n = path.unicode_len();
    let mut stack: Vec<(usize, usize)> = Vec::new();
    let ghost mut cur: Seq<Seq<char>> = Seq::empty();

    let mut pos: usize = 0;
    let mut done = false;
    proof {
        assert(full.skip(0) =~= full);
    }
    while !done
        invariant
            full == path@,
            n == full.len(),
            0 <= pos <= n,
            cur.len() == stack@.len(),
            forall|k: int|
                0 <= k < stack@.len() ==> (#[trigger] stack@[k]).0 <= stack@[k].1 <= n
                    && cur[k] == full.subrange(stack@[k].0 as int, stack@[k].1 as int),
            !done ==> path_run(split_slash(full), Seq::empty()) == path_run(
                split_slash(full.skip(pos as int)),
                cur,
            ),
            done ==> path_run(split_slash(full), Seq::empty()) == cur,
        decreases n - pos + (if done {
            0int
        } else {
            1int
        }),
    {
        let mut end: usize = pos;
        while end < n && path.get_char(end) != '/'
            invariant
                full == path@,
                n == full.len(),
                pos <= end <= n,
                forall|m: int| pos <= m < end ==> #[trigger] full[m] != '/',
            decreases n - end,
        {
            end = end + 1;
        }
        let ghost cur_entry = cur;
        let ghost rest = full.skip(pos as int);
        let ghost comp = full.subrange(pos as int, end as int);
        proof {
            assert(forall|m: int|
                0 <= m < end - pos ==> #[trigger] rest[m] == full[m + pos]);
            lemma_slash_from_at(rest, 0, end - pos as int);
            assert(comp =~= rest.subrange(0, end - pos as int));
            if end < n {
                assert(rest[end - pos as int] == '/');
                assert(slash_from(rest, 0) == end - pos);
                assert(split_slash(rest) == seq![rest.subrange(0, end - pos as int)]
                    + split_slash(rest.subrange(end - pos + 1, rest.len() as int)));
                assert(rest.subrange(end - pos + 1, rest.len() as int) =~= full.skip(end + 1));
                assert(split_slash(rest)[0] == comp);
                assert(split_slash(rest).drop_first() =~= split_slash(full.skip(end + 1)));
            } else {
                assert(slash_from(rest, 0) == rest.len());
                assert(split_slash(rest) == seq![rest]);
                assert(comp =~= rest);
                assert(split_slash(rest)[0] == comp);
                assert(split_slash(rest).drop_first() =~= Seq::<Seq<char>>::empty());
            }
        }
        // classify the component
        let len = end - pos;
        if len == 0 || (len == 1 && path.get_char(pos) == '.') {
            proof {
                if len == 1 {
                    assert(comp =~= seq!['.']);
                }
                assert(path_step(cur, comp) == cur);
            }
        } else if len == 2 && path.get_char(pos) == '.' && path.get_char(pos + 1) == '.' {
            proof {
                assert(comp =~= seq!['.', '.']);
            }
            let ghost cur0 = cur;
            if stack.len() > 0 {
                stack.pop();
                proof {
                    cur = cur.drop_last();
                    assert(path_step(cur0, comp) == cur);
                    assert(forall|k: int|
                        0 <= k < stack@.len() ==> cur[k] == cur0[k]);
                }
            } else {
                proof {
                    assert(path_step(cur0, comp) == cur);
                }
            }
        } else {
            proof {
                assert(comp.len() >= 1);
                assert(comp != seq!['.'] && comp != seq!['.', '.']) by {
                    if len == 1 {
                        assert(comp[0] == full[pos as int] && full[pos as int] != '.');
                    }
                    if len == 2 {
                        assert(comp[0] == full[pos as int]);
                        assert(comp[1] == full[pos + 1]);
                    }
                }
            }
            stack.push((pos, end));
            proof {
                let cur0 = cur;
                cur = cur.push(comp);
                assert(path_step(cur0, comp) == cur);
                assert(forall|k: int| 0 <= k < cur0.len() ==> cur[k] == cur0[k]);
            }
        }
        proof {
            assert(path_run(split_slash(rest), cur_entry) == path_run(
                split_slash(rest).drop_first(),
                path_step(cur_entry, comp),
            ));
            assert(path_step(cur_entry, comp) == cur);
            if end == n {
                assert(path_run(split_slash(full), Seq::empty()) == cur);
            } else {
                assert(path_run(split_slash(full), Seq::empty()) == path_run(
                    split_slash(full.skip(end + 1)),
                    cur,
                ));
            }
        }
        if end == n {
            done = true;
        } else {
            pos = end + 1;
        }
    }

    let mut result = String::new();
    proof {
        reveal_strlit("/");
        assert("/"@ =~= seq!['/']);
    }
    if stack.len() == 0 {
        let mut root = String::new();
        root.append("/");
        proof {
            assert(root@ =~= simplified_path(full));
        }
        return root;
    }
    let mut k: usize = 0;
    while k < stack.len()
        invariant
            full == path@,
            n == full.len(),
            cur.len() == stack@.len(),
            cur.len() > 0,
            forall|j: int|
                0 <= j < stack@.len() ==> (#[trigger] stack@[j]).0 <= stack@[j].1 <= n
                    && cur[j] == full.subrange(stack@[j].0 as int, stack@[j].1 as int),
            0 <= k <= stack@.len(),
            result@ == render_path(cur.subrange(0, k as int)),
            "/"@ == seq!['/'],
            path_run(split_slash(full), Seq::empty()) == cur,
        decreases stack@.len() - k,
    {
        let range = stack[k];
        result.append("/");
        let piece = path.substring_char(range.0, range.1);
        result.append(piece);
        proof {
            assert(cur.subrange(0, k + 1).drop_last() =~= cur.subrange(0, k as int));
            assert(cur.subrange(0, k + 1).last() == cur[k as int]);
            assert(result@ =~= render_path(cur.subrange(0, k + 1)));
        }
        k = k + 1;
    }
    proof {
        assert(cur.subrange(0, cur.len() as int) =~= cur);
        assert(result@ == simplified_path(full));
    }
    result
}

} // verus!
