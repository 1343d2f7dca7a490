//! Queue exercises: a queue built from two stacks, a stack built from
//! queues, a circular buffer, a priority queue, and the queue-driven
//! searches (sliding window maximum, island counting, lock opening,
//! perfect squares).

use std::collections::VecDeque;
use vstd::multiset::Multiset;
use vstd::prelude::*;

verus! {

use crate::bfs::Graph;

broadcast use vstd::seq_lib::group_seq_properties;

/// A first-in-first-out queue built from two last-in-first-out
/// stacks.
pub struct MyQueue {
    input: Vec<i32>,
    output: Vec<i32>,
}

impl MyQueue {
    /// The queued elements, oldest first.
    pub closed spec fn view(&self) -> Seq<i32> {
        self.output@.reverse() + self.input@
    }

    pub fn new() -> (result: MyQueue)
        ensures
            result.view() == Seq::<i32>::empty(),
    {
        let q = MyQueue { input: Vec::new(), output: Vec::new() };
        proof {
            assert(q.view() =~= Seq::<i32>::empty());
        }
        q
    }

    pub fn push(&mut self, x: i32)
        ensures
            final(self).view() == old(self).view().push(x),
    {
        self.input.push(x);
        proof {
            assert(self.view() =~= old(self).view().push(x));
        }
    }

    fn shift(&mut self)
        requires
            old(self).output@.len() == 0,
        ensures
            final(self).view() == old(self).view(),
            final(self).input@.len() == 0,
            final(self).output@.reverse() == old(self).view(),
    {
        let ghost v0 = self.view();
        proof {
            assert(self.input@ + self.output@.reverse() =~= v0);
        }
        while self.input.len() > 0
            invariant
                self.input@ + self.output@.reverse() == v0,
            decreases self.input@.len(),
        {
            let ghost old_in = self.input@;
            let ghost old_out = self.output@;
            let x = self.input.pop().unwrap();
            self.output.push(x);
            proof {
                assert(self.input@ + self.output@.reverse() =~= old_in + old_out.reverse());
            }
        }
        proof {
            assert(self.output@.reverse() =~= v0);
            assert(self.view() =~= v0);
        }
    }

    /// Remove and return the oldest element.
    pub fn pop(&mut self) -> (result: i32)
        requires
            old(self).view().len() > 0,
        ensures
            result == old(self).view()[0],
            final(self).view() == old(self).view().drop_first(),
    {
        if self.output.len() == 0 {
            self.shift();
        }
        proof {
            assert(self.output@.reverse().len() > 0);
            assert(self.output@.last() == self.view()[0]);
        }
        let r = self.output.pop().unwrap();
        proof {
            assert(self.view() =~= old(self).view().drop_first());
        }
        r
    }

    /// Return the oldest element without removing it.
    pub fn peek(&mut self) -> (result: i32)
        requires
            old(self).view().len() > 0,
        ensures
            result == old(self).view()[0],
            final(self).view() == old(self).view(),
    {
        if self.output.len() == 0 {
            self.shift();
        }
        proof {
            assert(self.output@.reverse().len() > 0);
            assert(self.output@.last() == self.view()[0]);
        }
        let n = self.output.len();
        self.output[n - 1]
    }

    pub fn empty(&self) -> (result: bool)
        ensures
            result == (self.view().len() == 0),
    {
        self.input.len() == 0 && self.output.len() == 0
    }
}

/// A last-in-first-out stack built from two first-in-first-out
/// queues.
pub struct MyStack {
    queue1: VecDeque<i32>,
    queue2: VecDeque<i32>,
}

impl MyStack {
    /// The stacked elements, bottom first.
    pub closed spec fn view(&self) -> Seq<i32> {
        self.queue1@.reverse()
    }

    /// The spare queue is empty between operations.
    pub closed spec fn inv(&self) -> bool {
        self.queue2@.len() == 0
    }

    pub fn new() -> (result: MyStack)
        ensures
            result.inv(),
            result.view() == Seq::<i32>::empty(),
    {
        let s = MyStack { queue1: VecDeque::new(), queue2: VecDeque::new() };
        proof {
            assert(s.view() =~= Seq::<i32>::empty());
        }
        s
    }

    pub fn push(&mut self, x: i32)
        requires
            old(self).inv(),
        ensures
            final(self).inv(),
            final(self).view() == old(self).view().push(x),
    {
        self.queue2.push_back(x);
        let ghost goal = seq![x] + old(self).queue1@;
        proof {
            assert(self.queue2@ + self.queue1@ =~= goal);
        }
        loop
            invariant
                self.queue2@ + self.queue1@ == goal,
            ensures
                self.queue2@ + self.queue1@ == goal,
                self.queue1@.len() == 0,
            decreases self.queue1@.len(),
        {
            let ghost q1 = self.queue1@;
            let ghost q2 = self.queue2@;
            match self.queue1.pop_front() {
                Some(val) => {
                    self.queue2.push_back(val);
                    proof {
                        assert(self.queue2@ + self.queue1@ =~= q2 + q1);
                    }
                },
                None => {
                    break;
                },
            }
        }
        std::mem::swap(&mut self.queue1, &mut self.queue2);
        proof {
            assert(self.queue2@ =~= Seq::<i32>::empty());
            assert(self.queue1@ =~= goal);
            assert(self.view() =~= old(self).view().push(x));
        }
    }

    /// Remove and return the most recently pushed element.
    pub fn pop(&mut self) -> (result: i32)
        requires
            old(self).inv(),
            old(self).view().len() > 0,
        ensures
            final(self).inv(),
            result == old(self).view().last(),
            final(self).view() == old(self).view().drop_last(),
    {
        let r = self.queue1.pop_front().unwrap();
        proof {
            assert(self.view() =~= old(self).view().drop_last());
        }
        r
    }

    /// Return the most recently pushed element without removing it.
    pub fn top(&self) -> (result: i32)
        requires
            self.view().len() > 0,
        ensures
            result == self.view().last(),
    {
        self.queue1[0]
    }

    pub fn empty(&self) -> (result: bool)
        ensures
            result == (self.view().len() == 0),
    {
        self.queue1.len() == 0
    }
}


/// A fixed-capacity circular queue.
pub struct MyCircularQueue {
    data: Vec<i32>,
    head: usize,
    tail: usize,
    size: usize,
    capacity: usize,
}

impl MyCircularQueue {
    /// The buffer is consistent: the occupied region starts at `head`
    /// and wraps around the end of `data` when needed.
    pub closed spec fn inv(&self) -> bool {
        &&& self.data@.len() == self.capacity
        &&& self.capacity <= i32::MAX
        &&& self.size <= self.capacity
        &&& (self.capacity == 0 ==> self.head == 0 && self.tail == 0 && self.size == 0)
        &&& (self.capacity > 0 ==> self.head < self.capacity)
        &&& (self.capacity > 0 ==> self.tail == if self.head + self.size < self.capacity {
            self.head + self.size
        } else {
            (self.head + self.size - self.capacity) as int
        })
    }

    /// The queued elements, oldest first.
    pub closed spec fn view(&self) -> Seq<i32> {
        if self.head + self.size <= self.data@.len() {
            self.data@.subrange(self.head as int, self.head + self.size)
        } else {
            self.data@.subrange(self.head as int, self.data@.len() as int) + self.data@.subrange(
                0,
                self.head + self.size - self.data@.len(),
            )
        }
    }

    /// The fixed capacity the queue was created with.
    pub closed spec fn cap(&self) -> int {
        self.capacity as int
    }

    pub fn new(k: i32) -> (result: MyCircularQueue)
        requires
            k >= 0,
        ensures
            result.inv(),
            result.view() == Seq::<i32>::empty(),
            result.cap() == k,
    {
        let c = k as usize;
        let q = MyCircularQueue { data: vec![0i32; c], head: 0, tail: 0, size: 0, capacity: c };
        proof {
            assert(q.view() =~= Seq::<i32>::empty());
        }
        q
    }

    /// Append a value at the rear; reports whether there was room.
    pub fn en_queue(&mut self, value: i32) -> (result: bool)
        requires
            old(self).inv(),
        ensures
            final(self).inv(),
            final(self).cap() == old(self).cap(),
            old(self).view().len() == old(self).cap() ==> result == false && final(self).view()
                == old(self).view(),
            old(self).view().len() < old(self).cap() ==> result == true && final(self).view()
                == old(self).view().push(value),
    {
        if self.is_full() {
            return false;
        }
        self.data[self.tail] = value;
        self.tail = (self.tail + 1) % self.capacity;
        self.size = self.size + 1;
        proof {
            if old(self).tail + 1 < self.capacity {
                vstd::arithmetic::div_mod::lemma_small_mod((old(self).tail + 1) as nat,
                    self.capacity as nat);
            } else {
                assert(old(self).tail + 1 == self.capacity);
                vstd::arithmetic::div_mod::lemma_mod_self_0(self.capacity as int);
            }
            assert(self.tail == (old(self).tail + 1) % (self.capacity as int));
            assert(self.view() =~= old(self).view().push(value));
        }
        true
    }

    /// Drop the value at the front; reports whether one was present.
    pub fn de_queue(&mut self) -> (result: bool)
        requires
            old(self).inv(),
        ensures
            final(self).inv(),
            final(self).cap() == old(self).cap(),
            old(self).view().len() == 0 ==> result == false && final(self).view() == old(
                self,
            ).view(),
            old(self).view().len() > 0 ==> result == true && final(self).view() == old(
                self,
            ).view().drop_first(),
    {
        if self.is_empty() {
            return false;
        }
        self.head = (self.head + 1) % self.capacity;
        self.size = self.size - 1;
        proof {
            if old(self).head + 1 < self.capacity {
                vstd::arithmetic::div_mod::lemma_small_mod((old(self).head + 1) as nat,
                    self.capacity as nat);
            } else {
                assert(old(self).head + 1 == self.capacity);
                vstd::arithmetic::div_mod::lemma_mod_self_0(self.capacity as int);
            }
            assert(self.head == (old(self).head + 1) % (self.capacity as int));
            assert(self.view() =~= old(self).view().drop_first());
        }
        true
    }

    /// The value at the front, or -1 when the queue is empty.
    pub fn front(&self) -> (result: i32)
        requires
            self.inv(),
        ensures
            self.view().len() == 0 ==> result == -1,
            self.view().len() > 0 ==> result == self.view()[0],
    {
        if self.is_empty() {
            -1
        } else {
            self.data[self.head]
        }
    }

    /// The value at the rear, or -1 when the queue is empty.
    pub fn rear(&self) -> (result: i32)
        requires
            self.inv(),
        ensures
            self.view().len() == 0 ==> result == -1,
            self.view().len() > 0 ==> result == self.view().last(),
    {
        if self.is_empty() {
            -1
        } else {
            let idx = (self.tail + self.capacity - 1) % self.capacity;
            proof {
                vstd::arithmetic::div_mod::lemma_fundamental_div_mod(
                    (self.tail + self.capacity - 1) as int,
                    self.capacity as int,
                );
                if self.tail == 0 {
                    vstd::arithmetic::div_mod::lemma_small_mod((self.capacity - 1) as nat,
                        self.capacity as nat);
                } else {
                    vstd::arithmetic::div_mod::lemma_mod_multiples_vanish(1,
                        (self.tail - 1) as int, self.capacity as int);
                    vstd::arithmetic::div_mod::lemma_small_mod((self.tail - 1) as nat,
                        self.capacity as nat);
                }
            }
            self.data[idx]
        }
    }

    pub fn is_empty(&self) -> (result: bool)
        requires
            self.inv(),
        ensures
            result == (self.view().len() == 0),
    {
        self.size == 0
    }

    pub fn is_full(&self) -> (result: bool)
        requires
            self.inv(),
        ensures
            result == (self.view().len() == self.cap()),
    {
        self.size == self.capacity
    }
}

/// Largest element of a multiset of machine integers.
pub open spec fn is_multiset_max(m: Multiset<i32>, v: i32) -> bool {
    m.count(v) > 0 && forall|x: i32| #[trigger] m.count(x) > 0 ==> x <= v
}

/// A maximum priority queue over machine integers.
pub struct PriorityQueue {
    heap: Vec<i32>,
}

impl PriorityQueue {
    /// The stored elements, without order.
    pub closed spec fn view(&self) -> Multiset<i32> {
        self.heap@.to_multiset()
    }

    pub fn new() -> (result: PriorityQueue)
        ensures
            result.view() == Multiset::<i32>::empty(),
    {
        let q = PriorityQueue { heap: Vec::new() };
        proof {
            broadcast use vstd::seq_lib::group_to_multiset_ensures;

            assert(q.heap@.to_multiset() =~= Multiset::<i32>::empty()) by {
                assert(q.heap@.to_multiset().len() == 0);
            }
        }
        q
    }

    pub fn push(&mut self, item: i32)
        ensures
            final(self).view() == old(self).view().insert(item),
    {
        proof {
            broadcast use vstd::seq_lib::group_to_multiset_ensures;

        }
        self.heap.push(item);
    }

    /// Index of a largest element of the non-empty heap.
    fn max_index(&self) -> (result: usize)
        requires
            self.heap@.len() > 0,
        ensures
            result < self.heap@.len(),
            forall|j: int| 0 <= j < self.heap@.len() ==> self.heap@[j] <= self.heap@[result as int],
    {
        let mut best: usize = 0;
        let mut i: usize = 1;
        while i < self.heap.len()
            invariant
                best < i <= self.heap@.len(),
                forall|j: int| 0 <= j < i ==> self.heap@[j] <= self.heap@[best as int],
            decreases self.heap@.len() - i,
        {
            if self.heap[i] > self.heap[best] {
                best = i;
            }
            i = i + 1;
        }
        best
    }

    /// Remove and return the largest element, or `None` when empty.
    pub fn pop(&mut self) -> (result: Option<i32>)
        ensures
            match result {
                Some(v) => is_multiset_max(old(self).view(), v) && final(self).view() == old(
                    self,
                ).view().remove(v),
                None => old(self).view().len() == 0 && final(self).view() == old(self).view(),
            },
    {
        proof {
            broadcast use vstd::seq_lib::group_to_multiset_ensures;

        }
        if self.heap.len() == 0 {
            return None;
        }
        let idx = self.max_index();
        let v = self.heap.remove(idx);
        proof {
            broadcast use vstd::seq_lib::group_to_multiset_ensures;

            assert forall|x: i32| #[trigger] old(self).view().count(x) > 0 implies x <= v by {
                assert(old(self).heap@.contains(x));
                let j = choose|j: int| 0 <= j < old(self).heap@.len() && old(self).heap@[j] == x;
            }
        }
        Some(v)
    }

    /// The largest element, or `None` when empty.
    pub fn peek(&self) -> (result: Option<&i32>)
        ensures
            match result {
                Some(v) => is_multiset_max(self.view(), *v),
                None => self.view().len() == 0,
            },
    {
        proof {
            broadcast use vstd::seq_lib::group_to_multiset_ensures;

        }
        if self.heap.len() == 0 {
            return None;
        }
        let idx = self.max_index();
        proof {
            assert forall|x: i32| #[trigger] self.view().count(x) > 0 implies x <= self.heap@[idx as int] by {
                assert(self.heap@.contains(x));
                let j = choose|j: int| 0 <= j < self.heap@.len() && self.heap@[j] == x;
            }
        }
        Some(&self.heap[idx])
    }

    pub fn len(&self) -> (result: usize)
        ensures
            result == self.view().len(),
    {
        proof {
            broadcast use vstd::seq_lib::group_to_multiset_ensures;

        }
        self.heap.len()
    }

    pub fn is_empty(&self) -> (result: bool)
        ensures
            result == (self.view().len() == 0),
    {
        proof {
            broadcast use vstd::seq_lib::group_to_multiset_ensures;

        }
        self.heap.len() == 0
    }
}

/// Maximum of every window of `k` consecutive elements, computed with
/// a monotonic deque of indices.
pub fn max_sliding_window_deque(nums: &[i32], k: usize) -> (result: Vec<i32>)
    ensures
        k == 0 || nums@.len() < k ==> result@.len() == 0,
        1 <= k <= nums@.len() ==> result@.len() == nums@.len() - k + 1,
        forall|t: int|
            0 <= t < result@.len() ==> #[trigger] result@[t] == crate::arrays::window_max(
                nums@,
                t,
                t + k,
            ),
{
    crate::arrays::max_sliding_window(nums, k)
}


/// The square of an integer.
pub open spec fn square(s: int) -> int {
    s * s
}

/// `k` perfect squares of positive integers sum to `m`.
pub open spec fn sum_of_squares(k: int, m: int) -> bool
    decreases k,
{
    if k <= 0 {
        k == 0 && m == 0
    } else {
        exists|s: int| 1 <= s && #[trigger] square(s) <= m && sum_of_squares(k - 1, m - square(s))
    }
}

/// The implicit graph of the perfect-square search: each state is a
/// remaining value, and one step subtracts any positive square.
pub struct SquareGraph {
    pub n: usize,
}

impl crate::bfs::Graph for SquareGraph {
    open spec fn wf(&self) -> bool {
        self.n <= i32::MAX
    }

    open spec fn size(&self) -> nat {
        (self.n + 1) as nat
    }

    open spec fn edge(&self, u: int, v: int) -> bool {
        0 <= u <= self.n && exists|s: int|
            1 <= s && #[trigger] square(s) <= u && v == u - square(s)
    }

    proof fn edge_in_range(&self, u: int, v: int) {
        let s = choose|s: int| 1 <= s && #[trigger] square(s) <= u && v == u - square(s);
        assert(square(s) >= 1) by (nonlinear_arith)
            requires
                s >= 1,
        ;
    }

    fn size_exec(&self) -> (n: usize) {
        self.n + 1
    }

    fn neighbors(&self, u: usize) -> (r: Vec<usize>) {
        let mut r: Vec<usize> = Vec::new();
        let mut s: usize = 1;
        while u >= s && s <= u / s
            invariant
                self.wf(),
                u as nat <= self.n,
                1 <= s <= u + 1,
                forall|a: int| 0 <= a < r@.len() ==> self.edge(u as int, #[trigger] r@[a] as int),
                forall|t: int|
                    1 <= t < s && #[trigger] square(t) <= u ==> r@.contains(
                        (u - square(t)) as usize,
                    ),
            decreases u + 2 - s,
        {
            proof {
                vstd::arithmetic::div_mod::lemma_fundamental_div_mod(u as int, s as int);
                vstd::arithmetic::div_mod::lemma_remainder_lower(u as int, s as int);
                assert(u / s * s <= u);
                assert(s * s <= u) by (nonlinear_arith)
                    requires
                        s >= 1,
                        s <= u / s,
                        u / s * s <= u,
                ;
            }
            let sq = s * s;
            let v = u - sq;
            let ghost old_r = r@;
            r.push(v);
            proof {
                assert(square(s as int) == sq);
                assert(self.edge(u as int, v as int));
                assert forall|t: int|
                    1 <= t < s + 1 && #[trigger] square(t) <= u implies r@.contains(
                    (u - square(t)) as usize,
                ) by {
                    if t < s {
                        assert(old_r.contains((u - square(t)) as usize));
                        let a = choose|a: int|
                            0 <= a < old_r.len() && old_r[a] == (u - square(t)) as usize;
                        assert(r@[a] == (u - square(t)) as usize);
                    } else {
                        assert(r@.last() == v);
                    }
                }
            }
            s = s + 1;
        }
        proof {
            assert forall|v: usize| self.edge(u as int, v as int) implies r@.contains(v) by {
                let t = choose|t: int|
                    1 <= t && #[trigger] square(t) <= u && v as int == u - square(t);
                assert(t <= u && t * t <= u) by (nonlinear_arith)
                    requires
                        t >= 1,
                        square(t) <= u,
                        square(t) == t * t,
                ;
                assert(t < s) by {
                    if t >= s {
                        assert(s * s <= t * t) by (nonlinear_arith)
                            requires
                                1 <= s <= t,
                        ;
                        vstd::arithmetic::div_mod::lemma_fundamental_div_mod(u as int, s as int);
                        vstd::arithmetic::div_mod::lemma_remainder_upper(u as int, s as int);
                        assert(s <= u / s) by (nonlinear_arith)
                            requires
                                s >= 1,
                                s * s <= u,
                                u < u / s * s + s,
                        ;
                    }
                }
            }
        }
        r
    }
}

proof fn lemma_path_gives_squares(g: &SquareGraph, p: Seq<int>, m: int)
    requires
        crate::bfs::is_path(g, p, m, 0),
    ensures
        sum_of_squares(p.len() - 1, m),
    decreases p.len(),
{
    if p.len() == 1 {
        assert(m == 0);
    } else {
        assert(g.edge(p[0], p[1]));
        let q = p.drop_first();
        assert(crate::bfs::is_path(g, q, p[1], 0)) by {
            assert(q.last() == p.last());
            assert(forall|i: int| 0 <= i < q.len() - 1 ==> g.edge(#[trigger] q[i], q[i + 1]));
        }
        lemma_path_gives_squares(g, q, p[1]);
        let s = choose|s: int| 1 <= s && #[trigger] square(s) <= m && p[1] == m - square(s);
        assert(sum_of_squares(p.len() - 1, m));
    }
}

proof fn lemma_squares_give_path(g: &SquareGraph, k: int, m: int)
    requires
        sum_of_squares(k, m),
        0 <= m <= g.n,
    ensures
        crate::bfs::has_path_of_len(g, m, 0, k),
    decreases k,
{
    if k <= 0 {
        let p: Seq<int> = seq![0int];
        assert(crate::bfs::is_path(g, p, 0, 0));
    } else {
        let s = choose|s: int|
            1 <= s && #[trigger] square(s) <= m && sum_of_squares(k - 1, m - square(s));
        assert(square(s) >= 1) by (nonlinear_arith)
            requires
                s >= 1,
        ;
        lemma_squares_give_path(g, k - 1, m - square(s));
        let q = choose|q: Seq<int>|
            crate::bfs::is_path(g, q, m - square(s), 0) && q.len() == (k - 1) + 1;
        let p = seq![m] + q;
        assert(crate::bfs::is_path(g, p, m, 0)) by {
            assert(p[0] == m);
            assert(p.last() == q.last());
            assert(g.edge(m, m - square(s)));
            assert forall|i: int| 0 <= i < p.len() - 1 implies g.edge(#[trigger] p[i], p[i + 1]) by {
                if i == 0 {
                    assert(p[1] == q[0]);
                } else {
                    assert(p[i] == q[i - 1] && p[i + 1] == q[i]);
                }
            }
        }
    }
}

proof fn lemma_all_ones(k: int)
    requires
        k >= 0,
    ensures
        sum_of_squares(k, k),
    decreases k,
{
    if k > 0 {
        lemma_all_ones(k - 1);
        assert(square(1) == 1);
        assert(1 <= 1 && square(1) <= k && sum_of_squares(k - 1, k - square(1)));
    }
}

/// Least number of perfect squares of positive integers that sum to
/// `n`; 0 when `n` is 0.
pub fn num_squares(n: i32) -> (result: i32)
    requires
        n >= 0,
    ensures
        result >= 0,
        sum_of_squares(result as int, n as int),
        forall|k: int| 0 <= k < result ==> !sum_of_squares(k, n as int),
{
    let g = SquareGraph { n: n as usize };
    proof {
            assert(g.size() <= usize::MAX - 1);
    }
    match crate::bfs::bfs_shortest(&g, n as usize, 0) {
        Some(d) => {
            proof {
                let p = choose|p: Seq<int>|
                    crate::bfs::is_path(&g, p, n as int, 0) && p.len() == d + 1;
                lemma_path_gives_squares(&g, p, n as int);
                assert forall|k: int| 0 <= k < d implies !sum_of_squares(k, n as int) by {
                    if sum_of_squares(k, n as int) {
                        lemma_squares_give_path(&g, k, n as int);
                    }
                }
                assert(d <= n) by {
                    lemma_all_ones(n as int);
                    lemma_squares_give_path(&g, n as int, n as int);
                }
            }
            d as i32
        },
        None => {
            proof {
                lemma_all_ones(n as int);
                lemma_squares_give_path(&g, n as int, n as int);
                assert(false);
            }
            0
        },
    }
}


/// Power of ten for each of the four lock digit positions.
pub open spec fn pow10p(p: int) -> int {
    if p == 0 {
        1
    } else if p == 1 {
        10
    } else if p == 2 {
        100
    } else {
        1000
    }
}

/// Digit `p` of the lock code `c` (position 0 is the last wheel).
pub open spec fn lock_digit(c: int, p: int) -> int {
    (c / pow10p(p)) % 10
}

/// The code after turning wheel `p` one step up, wrapping 9 to 0.
pub open spec fn rotate_up(c: int, p: int) -> int {
    c - lock_digit(c, p) * pow10p(p) + ((lock_digit(c, p) + 1) % 10) * pow10p(p)
}

/// The code after turning wheel `p` one step down, wrapping 0 to 9.
pub open spec fn rotate_down(c: int, p: int) -> int {
    c - lock_digit(c, p) * pow10p(p) + ((lock_digit(c, p) + 9) % 10) * pow10p(p)
}

/// One single-wheel turn leads from code `a` to code `b`.
pub open spec fn lock_adjacent(a: int, b: int) -> bool {
    &&& 0 <= a < 10000
    &&& 0 <= b < 10000
    &&& exists|p: int|
        0 <= p < 4 && (b == #[trigger] rotate_up(a, p) || b == rotate_down(a, p))
}

/// Four characters, all decimal digits.
pub open spec fn is_lock_string(t: Seq<char>) -> bool {
    t.len() == 4 && forall|i: int| 0 <= i < 4 ==> 48 <= #[trigger] t[i] as int <= 57
}

/// The code a four-digit string denotes, most significant wheel
/// first.
pub open spec fn lock_code(t: Seq<char>) -> int {
    (t[0] as int - 48) * 1000 + (t[1] as int - 48) * 100 + (t[2] as int - 48) * 10 + (t[3] as int
        - 48)
}

/// The codes that the dead-end strings rule out; entries that are not
/// four-digit strings can never match a reachable state.
pub open spec fn forbidden_codes(ds: Seq<Seq<char>>) -> Set<int> {
    Set::new(
        |c: int|
            exists|i: int|
                0 <= i < ds.len() && is_lock_string(#[trigger] ds[i]) && lock_code(ds[i]) == c,
    )
}

/// A sequence of codes that starts at `0000`, ends at `t`, turns one
/// wheel one step at a time, and never touches a forbidden code.
pub open spec fn is_lock_path(p: Seq<int>, forb: Set<int>, t: int) -> bool {
    &&& p.len() >= 1
    &&& p[0] == 0
    &&& p.last() == t
    &&& forall|m: int| 0 <= m < p.len() - 1 ==> lock_adjacent(#[trigger] p[m], p[m + 1])
    &&& forall|m: int| 0 <= m < p.len() ==> !forb.contains(#[trigger] p[m])
}

/// There is a lock path of exactly `k` turns to `t`.
pub open spec fn lock_reaches(forb: Set<int>, t: int, k: int) -> bool {
    exists|p: Seq<int>| is_lock_path(p, forb, t) && p.len() == k + 1
}

proof fn lemma_lock_digit_bounds(u: int, p: int)
    requires
        0 <= u < 10000,
        0 <= p < 4,
    ensures
        0 <= lock_digit(u, p) <= 9,
        lock_digit(u, p) * pow10p(p) <= u,
        u - lock_digit(u, p) * pow10p(p) + 9 * pow10p(p) < 10000,
        0 <= u - lock_digit(u, p) * pow10p(p),
{
    let pw = pow10p(p);
    let tenpw = 10 * pw;
    vstd::arithmetic::div_mod::lemma_fundamental_div_mod(u, pw);
    vstd::arithmetic::div_mod::lemma_remainder_lower(u, pw);
    vstd::arithmetic::div_mod::lemma_remainder_upper(u, pw);
    vstd::arithmetic::div_mod::lemma_fundamental_div_mod(u / pw, 10);
    vstd::arithmetic::div_mod::lemma_remainder_lower(u / pw, 10);
    vstd::arithmetic::div_mod::lemma_remainder_upper(u / pw, 10);
    vstd::arithmetic::div_mod::lemma_div_denominator(u, pw, 10);
    vstd::arithmetic::div_mod::lemma_div_pos_is_pos(u, pw);
    vstd::arithmetic::div_mod::lemma_div_pos_is_pos(u / pw, 10);
    let d = lock_digit(u, p);
    let a = u / tenpw;
    let b = u % pw;
    assert(u / pw == 10 * (u / pw / 10) + d);
    assert(u / pw / 10 == a);
    assert(u / pw == 10 * a + d);
    assert(u == pw * (u / pw) + b);
    assert(u == pw * (10 * a + d) + b) by (nonlinear_arith)
        requires
            u == pw * (u / pw) + b,
            u / pw == 10 * a + d,
    ;
    assert(pw * (10 * a + d) == tenpw * a + pw * d) by (nonlinear_arith)
        requires
            tenpw == 10 * pw,
    ;
    assert(u == tenpw * a + d * pw + b);
    assert(a >= 0);
    assert(a <= (10000 - 1) / tenpw) by {
        vstd::arithmetic::div_mod::lemma_div_is_ordered(u, 10000 - 1, tenpw);
    }
    if p == 0 {
        assert(a <= 999);
    } else if p == 1 {
        assert(a <= 99);
    } else if p == 2 {
        assert(a <= 9);
    } else {
        assert(a <= 0);
    }
    assert(tenpw * a <= tenpw * ((10000 - 1) / tenpw)) by (nonlinear_arith)
        requires
            a <= (10000 - 1) / tenpw,
            tenpw > 0,
    ;
}

/// The implicit graph of the lock search: codes joined by one wheel
/// turn, with edges into forbidden codes removed.
pub struct LockGraph {
    pub forbidden: Vec<bool>,
}

impl Graph for LockGraph {
    open spec fn wf(&self) -> bool {
        self.forbidden@.len() == 10000
    }

    open spec fn size(&self) -> nat {
        10000
    }

    open spec fn edge(&self, u: int, v: int) -> bool {
        lock_adjacent(u, v) && !self.forbidden@[v]
    }

    proof fn edge_in_range(&self, u: int, v: int) {
    }

    fn size_exec(&self) -> (n: usize) {
        10000
    }

    #[verifier::rlimit(60)]
    fn neighbors(&self, u: usize) -> (r: Vec<usize>) {
        let mut r: Vec<usize> = Vec::new();
        let mut p: usize = 0;
        while p < 4
            invariant
                self.wf(),
                u < 10000,
                0 <= p <= 4,
                forall|a: int| 0 <= a < r@.len() ==> self.edge(u as int, #[trigger] r@[a] as int),
                forall|q: int|
                    0 <= q < p ==> (self.forbidden@[rotate_up(u as int, q)] || r@.contains(
                        #[trigger] rotate_up(u as int, q) as usize,
                    )),
                forall|q: int|
                    0 <= q < p ==> (self.forbidden@[rotate_down(u as int, q)] || r@.contains(
                        #[trigger] rotate_down(u as int, q) as usize,
                    )),
            decreases 4 - p,
        {
            let pw: usize = if p == 0 {
                1
            } else if p == 1 {
                10
            } else {
                if p == 2 {
                    100
                } else {
                    1000
                }
            };
            proof {
                assert(pw as int == pow10p(p as int));
                lemma_lock_digit_bounds(u as int, p as int);
            }
            let d = (u / pw) % 10;
            let base = u - d * pw;
            let du = (d + 1) % 10;
            let dd = (d + 9) % 10;
            proof {
                assert(d as int == lock_digit(u as int, p as int));
                vstd::arithmetic::div_mod::lemma_mod_bound((d + 1) as int, 10);
                vstd::arithmetic::div_mod::lemma_mod_bound((d + 9) as int, 10);
                assert(du <= 9 && dd <= 9);
                assert(du * pw <= 9 * pw) by (nonlinear_arith)
                    requires
                        du <= 9,
                        pw >= 0,
                ;
                assert(dd * pw <= 9 * pw) by (nonlinear_arith)
                    requires
                        dd <= 9,
                        pw >= 0,
                ;
                assert((base as int) + 9 * (pw as int) < 10000);
            }
            let up = base + du * pw;
            let down = base + dd * pw;
            proof {
                assert(up as int == rotate_up(u as int, p as int));
                assert(down as int == rotate_down(u as int, p as int));
                assert(up < 10000 && down < 10000);
            }
            let ghost r0 = r@;
            if !self.forbidden[up] {
                proof {
                    assert(lock_adjacent(u as int, up as int));
                }
                r.push(up);
            }
            let ghost r1 = r@;
            if !self.forbidden[down] {
                proof {
                    assert(lock_adjacent(u as int, down as int));
                }
                r.push(down);
            }
            proof {
                assert forall|a: int| 0 <= a < r@.len() implies self.edge(
                    u as int,
                    #[trigger] r@[a] as int,
                ) by {
                    if a < r0.len() {
                        assert(r@[a] == r0[a]);
                    }
                }
                assert forall|q: int|
                    0 <= q < p + 1 implies (self.forbidden@[rotate_up(u as int, q)]
                    || r@.contains(#[trigger] rotate_up(u as int, q) as usize)) by {
                    if q < p {
                        if !self.forbidden@[rotate_up(u as int, q)] {
                            let a = choose|a: int|
                                0 <= a < r0.len() && r0[a] == rotate_up(u as int, q) as usize;
                            assert(r@[a] == r0[a]);
                        }
                    } else {
                        if !self.forbidden@[up as int] {
                            assert(r1[r1.len() - 1] == up);
                            assert(r@.contains(up));
                        }
                    }
                }
                assert forall|q: int|
                    0 <= q < p + 1 implies (self.forbidden@[rotate_down(u as int, q)]
                    || r@.contains(#[trigger] rotate_down(u as int, q) as usize)) by {
                    if q < p {
                        if !self.forbidden@[rotate_down(u as int, q)] {
                            let a = choose|a: int|
                                0 <= a < r0.len() && r0[a] == rotate_down(u as int, q) as usize;
                            assert(r1[a] == r0[a]);
                            assert(r@[a] == r1[a]);
                        }
                    } else {
                        if !self.forbidden@[down as int] {
                            assert(r@[r@.len() - 1] == down);
                        }
                    }
                }
            }
            p = p + 1;
        }
        proof {
            assert forall|v: usize| self.edge(u as int, v as int) implies r@.contains(v) by {
                let q = choose|q: int|
                    0 <= q < 4 && (v as int == #[trigger] rotate_up(u as int, q) || v as int
                        == rotate_down(u as int, q));
            }
        }
        r
    }
}


/// Parse a four-digit string into its lock code.
fn parse_lock_code(s: &str) -> (result: Option<usize>)
    ensures
        match result {
            Some(c) => is_lock_string(s@) && c as int == lock_code(s@) && c < 10000,
            None => !is_lock_string(s@),
        },
{
    let n = s.unicode_len();
    if n != 4 {
        return None;
    }
    let mut code: usize = 0;
    let mut i: usize = 0;
    while i < 4
        invariant
            s@.len() == 4,
            0 <= i <= 4,
            forall|j: int| 0 <= j < i ==> 48 <= #[trigger] s@[j] as int <= 57,
            code < 10000,
            i == 1 ==> code as int == (s@[0] as int - 48),
            i == 2 ==> code as int == (s@[0] as int - 48) * 10 + (s@[1] as int - 48),
            i == 3 ==> code as int == (s@[0] as int - 48) * 100 + (s@[1] as int - 48) * 10 + (
            s@[2] as int - 48),
            i == 4 ==> code as int == lock_code(s@),
            i == 0 ==> code == 0,
        decreases 4 - i,
    {
        let ch = s.get_char(i);
        let v = ch as u32;
        if v < 48 || v > 57 {
            return None;
        }
        code = code * 10 + ((v - 48) as usize);
        i = i + 1;
    }
    Some(code)
}

proof fn lemma_graph_path_is_lock_path(g: &LockGraph, forb: Set<int>, p: Seq<int>, t: int, i: int)
    requires
        g.wf(),
        forall|c: int| 0 <= c < 10000 ==> (#[trigger] g.forbidden@[c] <==> forb.contains(c)),
        forall|c: int| forb.contains(c) ==> 0 <= c < 10000,
        !forb.contains(0),
        crate::bfs::is_path(g, p, 0, t),
        0 <= i < p.len(),
    ensures
        !forb.contains(p[i]),
        0 <= p[i] < 10000,
    decreases i,
{
    if i == 0 {
        assert(p[0] == 0);
    } else {
        assert(g.edge(p[i - 1], p[i]));
        lemma_graph_path_is_lock_path(g, forb, p, t, i - 1);
    }
}

/// Fewest single-wheel turns from `"0000"` to the target, when no
/// intermediate code may be one of the dead ends; -1 when the target
/// cannot be reached, including when the start itself is a dead end
/// or the target is not a four-digit string.
pub fn open_lock(deadends: Vec<String>, target: String) -> (result: i32)
    ensures
        result >= -1,
        !is_lock_string(target@) ==> result == -1,
        is_lock_string(target@) ==> {
            let forb = forbidden_codes(deadends.deep_view());
            let t = lock_code(target@);
            &&& (result == -1 ==> forall|k: int| !lock_reaches(forb, t, k))
            &&& (result >= 0 ==> lock_reaches(forb, t, result as int) && forall|k: int|
                0 <= k < result ==> !lock_reaches(forb, t, k))
        },
{
    let ghost ds = deadends.deep_view();
    let ghost forb = forbidden_codes(ds);

    let mut forbidden: Vec<bool> = vec![false; 10000];
    let mut i: usize = 0;
    while i < deadends.len()
        invariant
            0 <= i <= deadends@.len(),
            ds == deadends.deep_view(),
            ds.len() == deadends@.len(),
            forall|j: int| 0 <= j < deadends@.len() ==> ds[j] == #[trigger] deadends@[j]@,
            forbidden@.len() == 10000,
            forall|c: int|
                0 <= c < 10000 ==> (#[trigger] forbidden@[c] <==> exists|j: int|
                    0 <= j < i && is_lock_string(#[trigger] ds[j]) && lock_code(ds[j]) == c),
        decreases deadends@.len() - i,
    {
        let ghost old_forbidden = forbidden@;
        match parse_lock_code(deadends[i].as_str()) {
            Some(c) => {
                forbidden[c] = true;
                proof {
                    assert forall|cc: int| 0 <= cc < 10000 implies (#[trigger] forbidden@[cc]
                        <==> exists|j: int|
                        0 <= j < i + 1 && is_lock_string(#[trigger] ds[j]) && lock_code(ds[j])
                            == cc) by {
                        if forbidden@[cc] {
                            if cc == c as int {
                                assert(is_lock_string(ds[i as int]) && lock_code(ds[i as int])
                                    == cc);
                            } else {
                                let j = choose|j: int|
                                    0 <= j < i && is_lock_string(#[trigger] ds[j]) && lock_code(
                                        ds[j],
                                    ) == cc;
                            }
                        } else {
                            if exists|j: int|
                                0 <= j < i + 1 && is_lock_string(#[trigger] ds[j]) && lock_code(
                                    ds[j],
                                ) == cc {
                                let j = choose|j: int|
                                    0 <= j < i + 1 && is_lock_string(#[trigger] ds[j])
                                        && lock_code(ds[j]) == cc;
                                assert(j == i || j < i);
                                assert(false);
                            }
                        }
                    }
                }
            },
            None => {
                proof {
                    assert forall|cc: int| 0 <= cc < 10000 implies (#[trigger] forbidden@[cc]
                        <==> exists|j: int|
                        0 <= j < i + 1 && is_lock_string(#[trigger] ds[j]) && lock_code(ds[j])
                            == cc) by {
                        if !forbidden@[cc] {
                            if exists|j: int|
                                0 <= j < i + 1 && is_lock_string(#[trigger] ds[j]) && lock_code(
                                    ds[j],
                                ) == cc {
                                let j = choose|j: int|
                                    0 <= j < i + 1 && is_lock_string(#[trigger] ds[j])
                                        && lock_code(ds[j]) == cc;
                                assert(j == i || j < i);
                                assert(false);
                            }
                        }
                    }
                }
            },
        }
        i = i + 1;
    }
    proof {
        assert forall|c: int| 0 <= c < 10000 implies (#[trigger] forbidden@[c] <==> forb.contains(
            c,
        )) by {
        }
        assert forall|c: int| forb.contains(c) implies 0 <= c < 10000 by {
            let j = choose|j: int|
                0 <= j < ds.len() && is_lock_string(#[trigger] ds[j]) && lock_code(ds[j]) == c;
            assert(48 <= ds[j][0] as int <= 57);
            assert(48 <= ds[j][1] as int <= 57);
            assert(48 <= ds[j][2] as int <= 57);
            assert(48 <= ds[j][3] as int <= 57);
        }
    }

    let t = match parse_lock_code(target.as_str()) {
        Some(c) => c,
        None => {
            return -1;
        },
    };

    if forbidden[0] {
        proof {
            assert forall|k: int| !lock_reaches(forb, t as int, k) by {
                if lock_reaches(forb, t as int, k) {
                    let p = choose|p: Seq<int>|
                        is_lock_path(p, forb, t as int) && p.len() == k + 1;
                    assert(!forb.contains(p[0]));
                }
            }
        }
        return -1;
    }

    let g = LockGraph { forbidden };
    match crate::bfs::bfs_shortest(&g, 0, t) {
        Some(d) => {
            proof {
                // the graph path found is a lock path
                let p = choose|p: Seq<int>|
                    crate::bfs::is_path(&g, p, 0, t as int) && p.len() == d + 1;
                assert forall|m: int| 0 <= m < p.len() implies !forb.contains(#[trigger] p[m]) by {
                    lemma_graph_path_is_lock_path(&g, forb, p, t as int, m);
                }
                assert forall|m: int| 0 <= m < p.len() - 1 implies lock_adjacent(
                    #[trigger] p[m],
                    p[m + 1],
                ) by {
                    assert(g.edge(p[m], p[m + 1]));
                }
                assert(is_lock_path(p, forb, t as int));
                assert(lock_reaches(forb, t as int, d as int));
                // no shorter lock path exists, else it would be a graph path
                assert forall|k: int| 0 <= k < d implies !lock_reaches(forb, t as int, k) by {
                    if lock_reaches(forb, t as int, k) {
                        let q = choose|q: Seq<int>|
                            is_lock_path(q, forb, t as int) && q.len() == k + 1;
                        assert forall|m: int| 0 <= m < q.len() - 1 implies g.edge(
                            #[trigger] q[m],
                            q[m + 1],
                        ) by {
                            assert(lock_adjacent(q[m], q[m + 1]));
                            assert(!forb.contains(q[m + 1]));
                        }
                        assert(crate::bfs::is_path(&g, q, 0, t as int));
                        assert(crate::bfs::has_path_of_len(&g, 0, t as int, k));
                    }
                }
            }
            d as i32
        },
        None => {
            proof {
                assert forall|k: int| !lock_reaches(forb, t as int, k) by {
                    if lock_reaches(forb, t as int, k) {
                        let q = choose|q: Seq<int>|
                            is_lock_path(q, forb, t as int) && q.len() == k + 1;
                        assert forall|m: int| 0 <= m < q.len() - 1 implies g.edge(
                            #[trigger] q[m],
                            q[m + 1],
                        ) by {
                            assert(lock_adjacent(q[m], q[m + 1]));
                            assert(!forb.contains(q[m + 1]));
                        }
                        assert(crate::bfs::is_path(&g, q, 0, t as int));
                        assert(crate::bfs::has_path_of_len(&g, 0, t as int, k));
                    }
                }
            }
            -1
        },
    }
}


/// The grid is rectangular: every row has the width of the first.
pub open spec fn grid_rect(g: Seq<Seq<char>>) -> bool {
    forall|r: int| 0 <= r < g.len() ==> #[trigger] g[r].len() == g[0].len()
}

/// Cell (r, c) lies inside the grid.
pub open spec fn in_grid(g: Seq<Seq<char>>, r: int, c: int) -> bool {
    0 <= r < g.len() && 0 <= c < g[0].len()
}

/// Cell (r, c) is land.
pub open spec fn is_land(g: Seq<Seq<char>>, r: int, c: int) -> bool {
    in_grid(g, r, c) && g[r][c] == '1'
}

/// The two cells share an edge.
pub open spec fn cells_adjacent(a: (int, int), b: (int, int)) -> bool {
    ||| (a.0 == b.0 && (a.1 == b.1 + 1 || a.1 + 1 == b.1))
    ||| (a.1 == b.1 && (a.0 == b.0 + 1 || a.0 + 1 == b.0))
}

/// `p` is a path of land cells from `a` to `b`, moving one edge at a
/// time.
pub open spec fn is_land_path(g: Seq<Seq<char>>, p: Seq<(int, int)>, a: (int, int), b: (int, int)) -> bool {
    &&& p.len() >= 1
    &&& p[0] == a
    &&& p.last() == b
    &&& forall|i: int| 0 <= i < p.len() ==> is_land(g, (#[trigger] p[i]).0, p[i].1)
    &&& forall|i: int| 0 <= i < p.len() - 1 ==> cells_adjacent(#[trigger] p[i], p[i + 1])
}

/// The two land cells belong to the same island.
pub open spec fn land_connected(g: Seq<Seq<char>>, a: (int, int), b: (int, int)) -> bool {
    exists|p: Seq<(int, int)>| is_land_path(g, p, a, b)
}

/// Cell `a` comes strictly before cell `b` in row-major order.
pub open spec fn rm_before(a: (int, int), b: (int, int)) -> bool {
    a.0 < b.0 || (a.0 == b.0 && a.1 < b.1)
}

/// Cell (r, c) is the first cell of its island in row-major order:
/// each island has exactly one such cell, so counting them counts
/// the islands.
pub open spec fn is_island_root(g: Seq<Seq<char>>, r: int, c: int) -> bool {
    is_land(g, r, c) && forall|b: (int, int)|
        #[trigger] land_connected(g, (r, c), b) ==> !rm_before(b, (r, c))
}

/// Whether the cell at row-major position `pos` is an island root.
pub open spec fn root_at(g: Seq<Seq<char>>, pos: int) -> bool {
    is_island_root(g, pos / g[0].len() as int, pos % g[0].len() as int)
}

/// Number of island roots among the first `pos` cells in row-major
/// order.
pub open spec fn root_count(g: Seq<Seq<char>>, pos: int) -> int
    decreases pos,
{
    if pos <= 0 {
        0
    } else {
        root_count(g, pos - 1) + if root_at(g, pos - 1) {
            1int
        } else {
            0int
        }
    }
}

/// Number of islands: maximal 4-connected groups of land cells.
pub open spec fn island_count(g: Seq<Seq<char>>) -> int {
    if g.len() == 0 {
        0
    } else {
        root_count(g, (g.len() * g[0].len()) as int)
    }
}

proof fn lemma_land_path_rev(g: Seq<Seq<char>>, p: Seq<(int, int)>, a: (int, int), b: (int, int))
    requires
        is_land_path(g, p, a, b),
    ensures
        is_land_path(g, p.reverse(), b, a),
{
    let q = p.reverse();
    assert(q[0] == p[p.len() - 1]);
    assert(q.last() == p[0]);
    assert forall|i: int| 0 <= i < q.len() - 1 implies cells_adjacent(#[trigger] q[i], q[i + 1]) by {
        assert(q[i] == p[p.len() - 1 - i]);
        assert(q[i + 1] == p[p.len() - 2 - i]);
        assert(cells_adjacent(p[p.len() - 2 - i], p[p.len() - 1 - i]));
    }
    assert forall|i: int| 0 <= i < q.len() implies is_land(g, (#[trigger] q[i]).0, q[i].1) by {
        assert(q[i] == p[p.len() - 1 - i]);
    }
}

proof fn lemma_connected_sym(g: Seq<Seq<char>>, a: (int, int), b: (int, int))
    requires
        land_connected(g, a, b),
    ensures
        land_connected(g, b, a),
{
    let p = choose|p: Seq<(int, int)>| is_land_path(g, p, a, b);
    lemma_land_path_rev(g, p, a, b);
}

proof fn lemma_connected_extend(g: Seq<Seq<char>>, a: (int, int), b: (int, int), c: (int, int))
    requires
        land_connected(g, a, b),
        cells_adjacent(b, c),
        is_land(g, c.0, c.1),
    ensures
        land_connected(g, a, c),
{
    let p = choose|p: Seq<(int, int)>| is_land_path(g, p, a, b);
    let q = p.push(c);
    assert forall|i: int| 0 <= i < q.len() - 1 implies cells_adjacent(#[trigger] q[i], q[i + 1]) by {
        if i < p.len() - 1 {
            assert(q[i] == p[i] && q[i + 1] == p[i + 1]);
        } else {
            assert(q[i] == p.last() && q[i + 1] == c);
        }
    }
    assert forall|i: int| 0 <= i < q.len() implies is_land(g, (#[trigger] q[i]).0, q[i].1) by {
        if i < p.len() {
            assert(q[i] == p[i]);
        }
    }
    assert(is_land_path(g, q, a, c));
}

proof fn lemma_walk_connected(g: Seq<Seq<char>>, a: (int, int), q: Seq<(int, int)>, b: (int, int), c: (int, int))
    requires
        land_connected(g, a, b),
        is_land_path(g, q, b, c),
    ensures
        land_connected(g, a, c),
    decreases q.len(),
{
    if q.len() == 1 {
        assert(b == c);
    } else {
        lemma_connected_extend(g, a, b, q[1]);
        let q2 = q.drop_first();
        assert(is_land_path(g, q2, q[1], c)) by {
            assert(q2[0] == q[1]);
            assert(q2.last() == q.last());
            assert(forall|i: int|
                0 <= i < q2.len() ==> is_land(g, (#[trigger] q2[i]).0, q2[i].1));
            assert(forall|i: int|
                0 <= i < q2.len() - 1 ==> cells_adjacent(#[trigger] q2[i], q2[i + 1]));
        }
        lemma_walk_connected(g, a, q2, q[1], c);
    }
}

proof fn lemma_connected_trans(g: Seq<Seq<char>>, a: (int, int), b: (int, int), c: (int, int))
    requires
        land_connected(g, a, b),
        land_connected(g, b, c),
    ensures
        land_connected(g, a, c),
{
    let q = choose|q: Seq<(int, int)>| is_land_path(g, q, b, c);
    lemma_walk_connected(g, a, q, b, c);
}


/// Row-major position of a cell.
spec fn cell_pos(g: Seq<Seq<char>>, x: (int, int)) -> int {
    x.0 * g[0].len() + x.1
}

proof fn lemma_cell_pos_order(g: Seq<Seq<char>>, a: (int, int), b: (int, int))
    requires
        in_grid(g, a.0, a.1),
        in_grid(g, b.0, b.1),
    ensures
        rm_before(a, b) <==> cell_pos(g, a) < cell_pos(g, b),
        a == b <==> cell_pos(g, a) == cell_pos(g, b),
{
    let w = g[0].len() as int;
    if a.0 < b.0 {
        assert(a.0 * w + w <= b.0 * w) by (nonlinear_arith)
            requires
                a.0 < b.0,
                w >= 0,
        ;
    }
    if b.0 < a.0 {
        assert(b.0 * w + w <= a.0 * w) by (nonlinear_arith)
            requires
                b.0 < a.0,
                w >= 0,
        ;
    }
    if a.0 == b.0 {
        assert(a.0 * w == b.0 * w);
    }
}

/// The queue holds a cell.
#[verifier::opaque]
spec fn queue_has(q: Seq<(usize, usize)>, x: (int, int)) -> bool {
    exists|a: int| 0 <= a < q.len() && ((#[trigger] q[a]).0 as int, q[a].1 as int) == x
}

/// The standing state of a flood fill from `seed` over the grid that
/// held `g1` when the fill began.
#[verifier::opaque]
spec fn flood_inv(
    g1: Seq<Seq<char>>,
    seed: (int, int),
    cur: Seq<Seq<char>>,
    q: Seq<(usize, usize)>,
) -> bool {
    &&& grid_rect(g1)
    &&& cur.len() == g1.len()
    &&& forall|r: int| 0 <= r < cur.len() ==> (#[trigger] cur[r]).len() == g1[r].len()
    &&& q.len() >= 1
    &&& (q[0].0 as int, q[0].1 as int) == seed
    &&& forall|a: int|
        0 <= a < q.len() ==> in_grid(g1, (#[trigger] q[a]).0 as int, q[a].1 as int) && is_land(
            g1,
            q[a].0 as int,
            q[a].1 as int,
        ) && land_connected(g1, seed, (q[a].0 as int, q[a].1 as int))
    &&& forall|a: int, b: int| 0 <= a < b < q.len() ==> q[a] != q[b]
    &&& forall|r: int, c: int|
        in_grid(g1, r, c) ==> #[trigger] cur[r][c] == if queue_has(q, (r, c)) {
            '0'
        } else {
            g1[r][c]
        }
}

proof fn lemma_flood_elem(
    g1: Seq<Seq<char>>,
    seed: (int, int),
    cur: Seq<Seq<char>>,
    q: Seq<(usize, usize)>,
    a: int,
)
    requires
        flood_inv(g1, seed, cur, q),
        0 <= a < q.len(),
    ensures
        in_grid(g1, q[a].0 as int, q[a].1 as int),
        is_land(g1, q[a].0 as int, q[a].1 as int),
        land_connected(g1, seed, (q[a].0 as int, q[a].1 as int)),
{
    reveal(flood_inv);
}

proof fn lemma_flood_card(
    g1: Seq<Seq<char>>,
    seed: (int, int),
    cur: Seq<Seq<char>>,
    q: Seq<(usize, usize)>,
)
    requires
        flood_inv(g1, seed, cur, q),
    ensures
        1 <= q.len() <= g1.len() * g1[0].len(),
{
    reveal(flood_inv);
    lemma_distinct_cells_len(q, g1.len() as int, g1[0].len() as int);
}

proof fn lemma_distinct_cells_len(q: Seq<(usize, usize)>, rows: int, cols: int)
    requires
        forall|a: int, b: int| 0 <= a < b < q.len() ==> q[a] != q[b],
        forall|a: int|
            0 <= a < q.len() ==> (#[trigger] q[a]).0 < rows && q[a].1 < cols,
        rows >= 0,
        cols >= 0,
    ensures
        q.len() <= rows * cols,
{
    broadcast use vstd::set::group_set_axioms;

    let qi = q.map(|_i: int, rc: (usize, usize)| rc.0 as int * cols + rc.1 as int);
    assert(qi.no_duplicates()) by {
        assert forall|i: int, j: int|
            0 <= i < qi.len() && 0 <= j < qi.len() && i != j implies qi[i] != qi[j] by {
            let (r1, c1) = (q[i].0 as int, q[i].1 as int);
            let (r2, c2) = (q[j].0 as int, q[j].1 as int);
            assert(q[i] != q[j]);
            assert(r1 * cols + c1 != r2 * cols + c2) by (nonlinear_arith)
                requires
                    0 <= c1 < cols,
                    0 <= c2 < cols,
                    r1 >= 0,
                    r2 >= 0,
                    !(r1 == r2 && c1 == c2),
            ;
        }
    }
    qi.unique_seq_to_set();
    vstd::set_lib::lemma_int_range(0, rows * cols);
    assert(qi.to_set().subset_of(vstd::set_lib::set_int_range(0, rows * cols))) by {
        assert forall|x: int| qi.to_set().contains(x) implies vstd::set_lib::set_int_range(
            0,
            rows * cols,
        ).contains(x) by {
            let i = choose|i: int| 0 <= i < qi.len() && qi[i] == x;
            let (r1, c1) = (q[i].0 as int, q[i].1 as int);
            assert(0 <= r1 * cols + c1 < rows * cols) by (nonlinear_arith)
                requires
                    0 <= r1 < rows,
                    0 <= c1 < cols,
            ;
        }
    }
    vstd::set_lib::lemma_len_subset(qi.to_set(), vstd::set_lib::set_int_range(0, rows * cols));
}


/// Mark one neighbouring cell as visited and enqueue it, when it is
/// still land.
fn flood_absorb(
    grid: &mut Vec<Vec<char>>,
    queue: &mut Vec<(usize, usize)>,
    r2: usize,
    c2: usize,
    Ghost(g1): Ghost<Seq<Seq<char>>>,
    Ghost(seed): Ghost<(int, int)>,
)
    requires
        flood_inv(g1, seed, old(grid).deep_view(), old(queue)@),
        in_grid(g1, r2 as int, c2 as int),
        is_land(g1, r2 as int, c2 as int) ==> land_connected(g1, seed, (r2 as int, c2 as int)),
    ensures
        flood_inv(g1, seed, final(grid).deep_view(), final(queue)@),
        old(queue)@.is_prefix_of(final(queue)@),
        final(queue)@.len() >= old(queue)@.len(),
        final(queue)@.len() <= old(queue)@.len() + 1,
        is_land(g1, r2 as int, c2 as int) ==> queue_has(final(queue)@, (r2 as int, c2 as int)),
{
    let ghost cur0 = grid.deep_view();
    let ghost q0 = queue@;
    proof {
        reveal(flood_inv);
        reveal(queue_has);
        assert(cur0.len() == grid@.len());
        assert(grid@[r2 as int].deep_view() =~= grid@[r2 as int]@);
        assert(cur0[r2 as int] == grid@[r2 as int]@);
    }
    if grid[r2][c2] == '1' {
        proof {
            reveal(queue_has);
            assert(cur0[r2 as int][c2 as int] == '1');
            assert(!queue_has(q0, (r2 as int, c2 as int)));
            assert(is_land(g1, r2 as int, c2 as int));
        }
        let row = &mut grid[r2];
        row[c2] = '0';
        queue.push((r2, c2));
        proof {
            reveal(queue_has);
            let cur = grid.deep_view();
            assert(cur[r2 as int] =~= cur0[r2 as int].update(c2 as int, '0'));
            assert(forall|r: int|
                0 <= r < cur.len() && r != r2 as int ==> #[trigger] cur[r] == cur0[r]);
            assert forall|x: (int, int)| #[trigger] queue_has(queue@, x) implies queue_has(q0, x)
                || (is_land(g1, x.0, x.1) && x == (r2 as int, c2 as int)) by {
                let a = choose|a: int|
                    0 <= a < queue@.len() && ((#[trigger] queue@[a]).0 as int, queue@[a].1 as int)
                        == x;
                if a < q0.len() {
                    assert(queue_has(q0, x));
                }
            }
            assert forall|x: (int, int)|
                queue_has(q0, x) || (is_land(g1, x.0, x.1) && x == (r2 as int, c2 as int))
                implies #[trigger] queue_has(queue@, x) by {
                if queue_has(q0, x) {
                    let a = choose|a: int|
                        0 <= a < q0.len() && ((#[trigger] q0[a]).0 as int, q0[a].1 as int) == x;
                    assert(queue@[a] == q0[a]);
                } else {
                    assert(queue@[queue@.len() - 1] == (r2, c2));
                }
            }
            assert forall|r: int, c: int| in_grid(g1, r, c) implies #[trigger] grid.deep_view()[r][c]
                == if queue_has(queue@, (r, c)) {
                '0'
            } else {
                g1[r][c]
            } by {
                if r == r2 as int && c == c2 as int {
                } else {
                    assert(cur[r][c] == cur0[r][c]);
                    assert(queue_has(queue@, (r, c)) <==> queue_has(q0, (r, c)));
                }
            }
            assert forall|a: int, b: int| 0 <= a < b < queue@.len() implies queue@[a] != queue@[b]
                by {
                if b == queue@.len() - 1 {
                    if queue@[a] == queue@[b] {
                        assert(queue_has(q0, (r2 as int, c2 as int)));
                    }
                }
            }
        }
    } else {
        proof {
            reveal(queue_has);
            if is_land(g1, r2 as int, c2 as int) && !queue_has(q0, (r2 as int, c2 as int)) {
                assert(cur0[r2 as int][c2 as int] == g1[r2 as int][c2 as int]);
                assert(false);
            }
        }
    }
}


proof fn lemma_queue_has_prefix(q1: Seq<(usize, usize)>, q2: Seq<(usize, usize)>, x: (int, int))
    requires
        q1 == q2 || q1.is_prefix_of(q2),
        queue_has(q1, x),
    ensures
        queue_has(q2, x),
{
    reveal(queue_has);
    let a = choose|a: int| 0 <= a < q1.len() && ((#[trigger] q1[a]).0 as int, q1[a].1 as int) == x;
    assert(q2[a] == q1[a]);
}

/// Every cell already processed has all of its land neighbours in
/// the queue.
#[verifier::opaque]
spec fn flood_closed_upto(g1: Seq<Seq<char>>, q: Seq<(usize, usize)>, qh: int) -> bool {
    forall|a: int|
        0 <= a < qh ==> forall|y: (int, int)|
            in_grid(g1, y.0, y.1) && is_land(g1, y.0, y.1) && cells_adjacent(
                ((#[trigger] q[a]).0 as int, q[a].1 as int),
                y,
            ) ==> #[trigger] queue_has(q, y)
}

proof fn lemma_closure_step(
    g1: Seq<Seq<char>>,
    q0: Seq<(usize, usize)>,
    q4: Seq<(usize, usize)>,
    qh: int,
    u: (int, int),
)
    requires
        0 <= qh < q0.len(),
        ((q0[qh].0) as int, (q0[qh].1) as int) == u,
        q0 == q4 || q0.is_prefix_of(q4),
        flood_closed_upto(g1, q0, qh),
        in_grid(g1, u.0 - 1, u.1) && is_land(g1, u.0 - 1, u.1) ==> queue_has(q4, (u.0 - 1, u.1)),
        in_grid(g1, u.0 + 1, u.1) && is_land(g1, u.0 + 1, u.1) ==> queue_has(q4, (u.0 + 1, u.1)),
        in_grid(g1, u.0, u.1 - 1) && is_land(g1, u.0, u.1 - 1) ==> queue_has(q4, (u.0, u.1 - 1)),
        in_grid(g1, u.0, u.1 + 1) && is_land(g1, u.0, u.1 + 1) ==> queue_has(q4, (u.0, u.1 + 1)),
    ensures
        flood_closed_upto(g1, q4, qh + 1),
{
    reveal(flood_closed_upto);
    assert forall|a: int|
        0 <= a < qh + 1 implies forall|y: (int, int)|
            in_grid(g1, y.0, y.1) && is_land(g1, y.0, y.1) && cells_adjacent(
                ((#[trigger] q4[a]).0 as int, q4[a].1 as int),
                y,
            ) ==> #[trigger] queue_has(q4, y) by {
        assert(q4[a] == q0[a]);
        assert forall|y: (int, int)|
            in_grid(g1, y.0, y.1) && is_land(g1, y.0, y.1) && cells_adjacent(
                ((q4[a]).0 as int, q4[a].1 as int),
                y,
            ) implies #[trigger] queue_has(q4, y) by {
            if a < qh {
                assert(queue_has(q0, y));
                lemma_queue_has_prefix(q0, q4, y);
            } else {
                assert(((q4[a]).0 as int, (q4[a]).1 as int) == u);
                assert(y == (u.0 - 1, u.1) || y == (u.0 + 1, u.1) || y == (u.0, u.1 - 1) || y == (
                u.0,
                u.1 + 1,
                ));
            }
        }
    }
}

proof fn lemma_component_in_queue(
    g1: Seq<Seq<char>>,
    seed: (int, int),
    q: Seq<(usize, usize)>,
    p: Seq<(int, int)>,
    j: int,
)
    requires
        q.len() >= 1,
        (q[0].0 as int, q[0].1 as int) == seed,
        flood_closed_upto(g1, q, q.len() as int),
        is_land_path(g1, p, seed, p.last()),
        0 <= j < p.len(),
    ensures
        queue_has(q, p[j]),
    decreases j,
{
    reveal(queue_has);
    reveal(flood_closed_upto);
    if j == 0 {
        assert(((q[0]).0 as int, q[0].1 as int) == p[0]);
    } else {
        lemma_component_in_queue(g1, seed, q, p, j - 1);
        let a = choose|a: int|
            0 <= a < q.len() && ((#[trigger] q[a]).0 as int, q[a].1 as int) == p[j - 1];
        assert(cells_adjacent(p[j - 1], p[j]));
        assert(is_land(g1, p[j].0, p[j].1));
    }
}

/// Drain the island that contains the seed cell: every land cell
/// reachable from it through shared edges is flipped to water.
#[verifier::rlimit(100)]
fn bfs_islands(grid: &mut Vec<Vec<char>>, row: usize, col: usize)
    requires
        grid_rect(old(grid).deep_view()),
        is_land(old(grid).deep_view(), row as int, col as int),
    ensures
        final(grid).deep_view().len() == old(grid).deep_view().len(),
        forall|r: int|
            0 <= r < old(grid).deep_view().len() ==> (#[trigger] final(grid).deep_view()[r]).len()
                == old(grid).deep_view()[r].len(),
        forall|r: int, c: int|
            in_grid(old(grid).deep_view(), r, c) ==> #[trigger] final(grid).deep_view()[r][c]
                == if land_connected(
                old(grid).deep_view(),
                (row as int, col as int),
                (r, c),
            ) {
                '0'
            } else {
                old(grid).deep_view()[r][c]
            },
{
    let ghost g1 = old(grid).deep_view();
    let ghost seed: (int, int) = (row as int, col as int);
    let rows = grid.len();
    let cols = grid[0].len();

    let mut queue: Vec<(usize, usize)> = Vec::new();
    proof {
        assert(grid.deep_view().len() == grid@.len());
        assert(grid@[row as int].deep_view() =~= grid@[row as int]@);
    }
    let row_ref = &mut grid[row];
    row_ref[col] = '0';
    queue.push((row, col));
    proof {
        reveal(flood_inv);
        let p0: Seq<(int, int)> = seq![seed];
        assert(is_land_path(g1, p0, seed, seed));
        assert(land_connected(g1, seed, seed));
        let cur = grid.deep_view();
        assert(cur[row as int] =~= g1[row as int].update(col as int, '0'));
        assert(forall|r: int| 0 <= r < cur.len() && r != row as int ==> #[trigger] cur[r] == g1[r]);
        reveal(queue_has);
        assert forall|r: int, c: int| in_grid(g1, r, c) implies #[trigger] cur[r][c]
            == if queue_has(queue@, (r, c)) {
            '0'
        } else {
            g1[r][c]
        } by {
            if r == row as int && c == col as int {
                assert(queue@[0] == (row, col));
                assert(queue_has(queue@, (r, c)));
            } else {
                if queue_has(queue@, (r, c)) {
                    let a = choose|a: int|
                        0 <= a < queue@.len() && ((#[trigger] queue@[a]).0 as int,
                        queue@[a].1 as int) == (r, c);
                    assert(false);
                }
            }
        }
        assert(flood_inv(g1, seed, grid.deep_view(), queue@));
        assert(flood_closed_upto(g1, queue@, 0)) by {
            reveal(flood_closed_upto);
        }
    }

    let mut qh: usize = 0;
    while qh < queue.len()
        invariant
            flood_inv(g1, seed, grid.deep_view(), queue@),
            rows == g1.len(),
            cols == g1[0].len(),
            seed == (row as int, col as int),
            qh <= queue@.len(),
            flood_closed_upto(g1, queue@, qh as int),
        decreases rows * cols - qh,
    {
        proof {
            lemma_flood_card(g1, seed, grid.deep_view(), queue@);
        }
        let cell = queue[qh];
        let r = cell.0;
        let c = cell.1;
        let ghost u: (int, int) = (r as int, c as int);
        proof {
            lemma_flood_elem(g1, seed, grid.deep_view(), queue@, qh as int);
            assert(land_connected(g1, seed, u));
        }
        let ghost q0s = queue@;
        if r > 0 {
            proof {
                let y: (int, int) = ((r - 1) as int, c as int);
                assert(cells_adjacent(u, y));
                if is_land(g1, y.0, y.1) {
                    lemma_connected_extend(g1, seed, u, y);
                }
            }
            flood_absorb(grid, &mut queue, r - 1, c, Ghost(g1), Ghost(seed));
        }
        let ghost q1s = queue@;
        if r + 1 < rows {
            proof {
                let y: (int, int) = ((r + 1) as int, c as int);
                assert(cells_adjacent(u, y));
                if is_land(g1, y.0, y.1) {
                    lemma_connected_extend(g1, seed, u, y);
                }
            }
            flood_absorb(grid, &mut queue, r + 1, c, Ghost(g1), Ghost(seed));
        }
        let ghost q2s = queue@;
        if c > 0 {
            proof {
                let y: (int, int) = (r as int, (c - 1) as int);
                assert(cells_adjacent(u, y));
                if is_land(g1, y.0, y.1) {
                    lemma_connected_extend(g1, seed, u, y);
                }
            }
            flood_absorb(grid, &mut queue, r, c - 1, Ghost(g1), Ghost(seed));
        }
        let ghost q3s = queue@;
        if c + 1 < cols {
            proof {
                let y: (int, int) = (r as int, (c + 1) as int);
                assert(cells_adjacent(u, y));
                if is_land(g1, y.0, y.1) {
                    lemma_connected_extend(g1, seed, u, y);
                }
            }
            flood_absorb(grid, &mut queue, r, c + 1, Ghost(g1), Ghost(seed));
        }
        let ghost q4s = queue@;
        proof {
            let yu: (int, int) = (u.0 - 1, u.1);
            if in_grid(g1, yu.0, yu.1) && is_land(g1, yu.0, yu.1) {
                assert(queue_has(q1s, yu));
                lemma_queue_has_prefix(q1s, q2s, yu);
                lemma_queue_has_prefix(q2s, q3s, yu);
                lemma_queue_has_prefix(q3s, q4s, yu);
            }
            let yd: (int, int) = (u.0 + 1, u.1);
            if in_grid(g1, yd.0, yd.1) && is_land(g1, yd.0, yd.1) {
                assert(queue_has(q2s, yd));
                lemma_queue_has_prefix(q2s, q3s, yd);
                lemma_queue_has_prefix(q3s, q4s, yd);
            }
            let yl: (int, int) = (u.0, u.1 - 1);
            if in_grid(g1, yl.0, yl.1) && is_land(g1, yl.0, yl.1) {
                assert(queue_has(q3s, yl));
                lemma_queue_has_prefix(q3s, q4s, yl);
            }
            let yr: (int, int) = (u.0, u.1 + 1);
            if in_grid(g1, yr.0, yr.1) && is_land(g1, yr.0, yr.1) {
                assert(queue_has(q4s, yr));
            }
            lemma_closure_step(g1, q0s, q4s, qh as int, u);
        }
        qh = qh + 1;
    }
    proof {
        reveal(flood_inv);
        assert forall|r: int, c: int| in_grid(g1, r, c) implies #[trigger] grid.deep_view()[r][c]
            == if land_connected(g1, seed, (r, c)) {
            '0'
        } else {
            g1[r][c]
        } by {
            reveal(queue_has);
            if land_connected(g1, seed, (r, c)) {
                let p = choose|p: Seq<(int, int)>| is_land_path(g1, p, seed, (r, c));
                assert(p.last() == (r, c));
                assert(flood_closed_upto(g1, queue@, queue@.len() as int));
                lemma_component_in_queue(g1, seed, queue@, p, p.len() - 1);
            } else {
                if queue_has(queue@, (r, c)) {
                    let a = choose|a: int|
                        0 <= a < queue@.len() && ((#[trigger] queue@[a]).0 as int,
                        queue@[a].1 as int) == (r, c);
                }
            }
        }
    }
}


/// Some land cell scanned before position `pos` is connected to `x`.
#[verifier::opaque]
spec fn cleared_before(g: Seq<Seq<char>>, pos: int, x: (int, int)) -> bool {
    exists|y: (int, int)|
        in_grid(g, y.0, y.1) && cell_pos(g, y) < pos && is_land(g, y.0, y.1) && #[trigger]
        land_connected(g, y, x)
}

/// The standing state of the island scan: a cell is drained exactly
/// when it is land that an earlier-scanned land cell reaches.
#[verifier::opaque]
spec fn scan_state(g0: Seq<Seq<char>>, cur: Seq<Seq<char>>, pos: int) -> bool {
    &&& cur.len() == g0.len()
    &&& forall|r: int| 0 <= r < g0.len() ==> (#[trigger] cur[r]).len() == g0[r].len()
    &&& forall|r: int, c: int|
        in_grid(g0, r, c) ==> #[trigger] cur[r][c] == (if is_land(g0, r, c) && cleared_before(
            g0,
            pos,
            (r, c),
        ) {
            '0'
        } else {
            g0[r][c]
        })
}

proof fn lemma_connected_is_land(g: Seq<Seq<char>>, a: (int, int), b: (int, int))
    requires
        land_connected(g, a, b),
    ensures
        is_land(g, a.0, a.1),
        is_land(g, b.0, b.1),
{
    let p = choose|p: Seq<(int, int)>| is_land_path(g, p, a, b);
    assert(is_land(g, p[0].0, p[0].1));
    assert(is_land(g, p.last().0, p.last().1));
}

proof fn lemma_root_count_le(g: Seq<Seq<char>>, pos: int)
    requires
        pos >= 0,
    ensures
        0 <= root_count(g, pos) <= pos,
    decreases pos,
{
    if pos > 0 {
        lemma_root_count_le(g, pos - 1);
    }
}

proof fn lemma_path_stays(
    g0: Seq<Seq<char>>,
    cur: Seq<Seq<char>>,
    pos: int,
    p: Seq<(int, int)>,
    a: (int, int),
    b: (int, int),
    j: int,
)
    requires
        scan_state(g0, cur, pos),
        is_land_path(g0, p, a, b),
        in_grid(g0, a.0, a.1),
        cur[a.0][a.1] == '1',
        0 <= j < p.len(),
    ensures
        cur[p[j].0][p[j].1] == '1',
    decreases j,
{
    reveal(scan_state);
    if j > 0 {
        lemma_path_stays(g0, cur, pos, p, a, b, j - 1);
        let x = p[j - 1];
        let y = p[j];
        assert(is_land(g0, x.0, x.1));
        assert(is_land(g0, y.0, y.1));
        assert(!cleared_before(g0, pos, x)) by {
            if cleared_before(g0, pos, x) {
                assert(cur[x.0][x.1] == '0');
            }
        }
        if cleared_before(g0, pos, y) {
            reveal(cleared_before);
            let z = choose|z: (int, int)|
                in_grid(g0, z.0, z.1) && cell_pos(g0, z) < pos && is_land(g0, z.0, z.1)
                    && #[trigger] land_connected(g0, z, y);
            assert(cells_adjacent(y, x)) by {
                assert(cells_adjacent(x, y));
            }
            lemma_connected_extend(g0, z, y, x);
            assert(cleared_before(g0, pos, x));
        }
    }
}

proof fn lemma_cur_path_in_g0(
    g0: Seq<Seq<char>>,
    cur: Seq<Seq<char>>,
    pos: int,
    p: Seq<(int, int)>,
    a: (int, int),
    b: (int, int),
)
    requires
        scan_state(g0, cur, pos),
        is_land_path(cur, p, a, b),
    ensures
        is_land_path(g0, p, a, b),
{
    reveal(scan_state);
    assert forall|i: int| 0 <= i < p.len() implies is_land(g0, (#[trigger] p[i]).0, p[i].1) by {
        assert(is_land(cur, p[i].0, p[i].1));
        assert(in_grid(g0, p[i].0, p[i].1));
        assert(cur[p[i].0][p[i].1] == '1');
    }
}

proof fn lemma_g0_path_in_cur(
    g0: Seq<Seq<char>>,
    cur: Seq<Seq<char>>,
    pos: int,
    a: (int, int),
    b: (int, int),
)
    requires
        scan_state(g0, cur, pos),
        land_connected(g0, a, b),
        in_grid(g0, a.0, a.1),
        cur[a.0][a.1] == '1',
    ensures
        land_connected(cur, a, b),
{
    reveal(scan_state);
    let p = choose|p: Seq<(int, int)>| is_land_path(g0, p, a, b);
    assert forall|i: int| 0 <= i < p.len() implies is_land(cur, (#[trigger] p[i]).0, p[i].1) by {
        lemma_path_stays(g0, cur, pos, p, a, b, i);
        assert(in_grid(g0, p[i].0, p[i].1));
        assert(in_grid(cur, p[i].0, p[i].1));
    }
    assert(is_land_path(cur, p, a, b));
}

proof fn lemma_scan_no_drain(g0: Seq<Seq<char>>, cur: Seq<Seq<char>>, pos: int, x: (int, int))
    requires
        scan_state(g0, cur, pos),
        in_grid(g0, x.0, x.1),
        cell_pos(g0, x) == pos,
        cur[x.0][x.1] != '1',
    ensures
        scan_state(g0, cur, pos + 1),
        !is_island_root(g0, x.0, x.1),
{
    reveal(scan_state);
    reveal(cleared_before);
    assert forall|x2: (int, int)|
        #[trigger] cleared_before(g0, pos + 1, x2) implies cleared_before(g0, pos, x2) by {
        let y = choose|y: (int, int)|
            in_grid(g0, y.0, y.1) && cell_pos(g0, y) < pos + 1 && is_land(g0, y.0, y.1)
                && #[trigger] land_connected(g0, y, x2);
        if cell_pos(g0, y) == pos {
            lemma_cell_pos_order(g0, y, x);
            assert(y == x);
            assert(is_land(g0, x.0, x.1));
            assert(cleared_before(g0, pos, x));
            let z = choose|z: (int, int)|
                in_grid(g0, z.0, z.1) && cell_pos(g0, z) < pos && is_land(g0, z.0, z.1)
                    && #[trigger] land_connected(g0, z, x);
            lemma_connected_trans(g0, z, x, x2);
        }
    }
    assert forall|r: int, c: int| in_grid(g0, r, c) implies #[trigger] cur[r][c] == (if is_land(
        g0,
        r,
        c,
    ) && cleared_before(g0, pos + 1, (r, c)) {
        '0'
    } else {
        g0[r][c]
    }) by {
        if is_land(g0, r, c) && cleared_before(g0, pos + 1, (r, c)) {
            assert(cleared_before(g0, pos, (r, c)));
        }
    }
    if is_land(g0, x.0, x.1) {
        assert(cleared_before(g0, pos, x));
        let z = choose|z: (int, int)|
            in_grid(g0, z.0, z.1) && cell_pos(g0, z) < pos && is_land(g0, z.0, z.1) && #[trigger]
            land_connected(g0, z, x);
        lemma_connected_sym(g0, z, x);
        lemma_cell_pos_order(g0, z, x);
        assert(land_connected(g0, x, z) && rm_before(z, x));
        assert(!is_island_root(g0, x.0, x.1));
    }
}

proof fn lemma_scan_after_drain(
    g0: Seq<Seq<char>>,
    cur_b: Seq<Seq<char>>,
    cur_a: Seq<Seq<char>>,
    pos: int,
    seed: (int, int),
)
    requires
        scan_state(g0, cur_b, pos),
        in_grid(g0, seed.0, seed.1),
        cell_pos(g0, seed) == pos,
        is_land(g0, seed.0, seed.1),
        cur_b[seed.0][seed.1] == '1',
        cur_a.len() == cur_b.len(),
        forall|r: int| 0 <= r < cur_b.len() ==> (#[trigger] cur_a[r]).len() == cur_b[r].len(),
        forall|r: int, c: int|
            in_grid(cur_b, r, c) ==> #[trigger] cur_a[r][c] == (if land_connected(
                cur_b,
                seed,
                (r, c),
            ) {
                '0'
            } else {
                cur_b[r][c]
            }),
        is_island_root(g0, seed.0, seed.1),
    ensures
        scan_state(g0, cur_a, pos + 1),
{
    reveal(scan_state);
    assert(in_grid(cur_b, seed.0, seed.1));
    assert forall|r: int, c: int| in_grid(g0, r, c) implies #[trigger] cur_a[r][c] == (if is_land(
        g0,
        r,
        c,
    ) && cleared_before(g0, pos + 1, (r, c)) {
        '0'
    } else {
        g0[r][c]
    }) by {
        let x: (int, int) = (r, c);
        assert(in_grid(cur_b, r, c));
        if land_connected(cur_b, seed, x) {
            lemma_connected_is_land(cur_b, seed, x);
            assert(cur_b[r][c] == '1');
            assert(is_land(g0, r, c));
            let pth = choose|p: Seq<(int, int)>| is_land_path(cur_b, p, seed, x);
            lemma_cur_path_in_g0(g0, cur_b, pos, pth, seed, x);
            assert(land_connected(g0, seed, x));
            assert(cleared_before(g0, pos + 1, x)) by {
                reveal(cleared_before);
            }
            assert(cur_a[r][c] == '0');
        } else {
            assert(cur_a[r][c] == cur_b[r][c]);
            if is_land(g0, r, c) && cleared_before(g0, pos, x) {
                assert(cur_b[r][c] == '0');
                assert(cleared_before(g0, pos + 1, x)) by {
                    reveal(cleared_before);
                }
            } else if is_land(g0, r, c) {
                // not yet cleared and not reached now: stays land
                assert(cur_b[r][c] == g0[r][c]);
                if cleared_before(g0, pos + 1, x) {
                    reveal(cleared_before);
                    let y = choose|y: (int, int)|
                        in_grid(g0, y.0, y.1) && cell_pos(g0, y) < pos + 1 && is_land(
                            g0,
                            y.0,
                            y.1,
                        ) && #[trigger] land_connected(g0, y, x);
                    if cell_pos(g0, y) < pos {
                        assert(cleared_before(g0, pos, x));
                        assert(false);
                    } else {
                        lemma_cell_pos_order(g0, y, seed);
                        assert(y == seed);
                        lemma_g0_path_in_cur(g0, cur_b, pos, seed, x);
                        assert(false);
                    }
                }
            } else {
                assert(cur_b[r][c] == g0[r][c]);
            }
        }
    }
}


proof fn lemma_connected_refl(g: Seq<Seq<char>>, x: (int, int))
    requires
        is_land(g, x.0, x.1),
    ensures
        land_connected(g, x, x),
{
    let p: Seq<(int, int)> = seq![x];
    assert(is_land_path(g, p, x, x));
}

proof fn lemma_scan_dims(g0: Seq<Seq<char>>, cur: Seq<Seq<char>>, pos: int)
    requires
        scan_state(g0, cur, pos),
    ensures
        cur.len() == g0.len(),
        forall|r: int| 0 <= r < g0.len() ==> (#[trigger] cur[r]).len() == g0[r].len(),
{
    reveal(scan_state);
}

proof fn lemma_scan_cell(g0: Seq<Seq<char>>, cur: Seq<Seq<char>>, pos: int, r: int, c: int)
    requires
        scan_state(g0, cur, pos),
        in_grid(g0, r, c),
    ensures
        cur[r][c] == (if is_land(g0, r, c) && cleared_before(g0, pos, (r, c)) {
            '0'
        } else {
            g0[r][c]
        }),
{
    reveal(scan_state);
}

/// Count the islands: maximal groups of land cells joined through
/// shared edges.  The caller's grid is consumed: every land cell is
/// flipped to water as its island is visited.
pub fn num_islands(grid: &mut Vec<Vec<char>>) -> (result: i32)
    requires
        grid_rect(old(grid).deep_view()),
        old(grid).deep_view().len() == 0 || old(grid).deep_view().len() * old(
            grid,
        ).deep_view()[0].len() <= i32::MAX,
    ensures
        result == island_count(old(grid).deep_view()),
        final(grid).deep_view().len() == old(grid).deep_view().len(),
        forall|r: int|
            0 <= r < old(grid).deep_view().len() ==> (#[trigger] final(grid).deep_view()[r]).len()
                == old(grid).deep_view()[r].len(),
        forall|r: int, c: int|
            in_grid(old(grid).deep_view(), r, c) ==> #[trigger] final(grid).deep_view()[r][c] == (
            if old(grid).deep_view()[r][c] == '1' {
                '0'
            } else {
                old(grid).deep_view()[r][c]
            }),
{
    let ghost g0 = old(grid).deep_view();
    if grid.len() == 0 {
        return 0;
    }
    let rows = grid.len();
    let cols = grid[0].len();
    proof {
        assert(g0.len() == grid@.len());
        assert(grid@[0].deep_view() =~= grid@[0]@);
        assert(cols == g0[0].len());
    }
    if cols == 0 {
        proof {
            assert(g0.len() * g0[0].len() == 0) by (nonlinear_arith)
                requires
                    g0[0].len() == 0,
            ;
            assert(root_count(g0, 0) == 0);
            assert(island_count(g0) == 0);
        }
        return 0;
    }

    let mut count: i32 = 0;
    proof {
        assert(scan_state(g0, g0, 0)) by {
            reveal(scan_state);
            assert forall|x: (int, int)| !cleared_before(g0, 0, x) by {
                reveal(cleared_before);
                if cleared_before(g0, 0, x) {
                    let y = choose|y: (int, int)|
                        in_grid(g0, y.0, y.1) && cell_pos(g0, y) < 0 && is_land(g0, y.0, y.1)
                            && #[trigger] land_connected(g0, y, x);
                    assert(y.0 * g0[0].len() + y.1 >= 0) by (nonlinear_arith)
                        requires
                            y.0 >= 0,
                            y.1 >= 0,
                            g0[0].len() >= 0,
                    ;
                }
            }
        }
        assert(rows * cols <= i32::MAX);
    }

    let mut r: usize = 0;
    while r < rows
        invariant
            grid_rect(g0),
            rows == g0.len(),
            cols == g0[0].len(),
            rows >= 1,
            cols >= 1,
            rows * cols <= i32::MAX,
            0 <= r <= rows,
            scan_state(g0, grid.deep_view(), r as int * cols as int),
            count == root_count(g0, r as int * cols as int),
        decreases rows - r,
    {
        let mut c: usize = 0;
        while c < cols
            invariant
                grid_rect(g0),
                rows == g0.len(),
                cols == g0[0].len(),
                rows >= 1,
                cols >= 1,
                rows * cols <= i32::MAX,
                0 <= r < rows,
                0 <= c <= cols,
                scan_state(g0, grid.deep_view(), r as int * cols as int + c as int),
                count == root_count(g0, r as int * cols as int + c as int),
            decreases cols - c,
        {
            let ghost pos: int = r as int * cols as int + c as int;
            proof {
                lemma_scan_dims(g0, grid.deep_view(), pos);
                assert(grid.deep_view().len() == grid@.len());
                assert(grid@[r as int].deep_view() =~= grid@[r as int]@);
                assert(grid.deep_view()[r as int] == grid@[r as int]@);
                assert(cell_pos(g0, (r as int, c as int)) == pos);
                assert(pos < rows * cols && pos >= 0) by (nonlinear_arith)
                    requires
                        0 <= r < rows,
                        0 <= c < cols,
                        pos == r as int * cols as int + c as int,
                ;
                lemma_scan_cell(g0, grid.deep_view(), pos, r as int, c as int);
                vstd::arithmetic::div_mod::lemma_fundamental_div_mod_converse(
                    pos,
                    cols as int,
                    r as int,
                    c as int,
                );
            }
            if grid[r][c] == '1' {
                proof {
                    let x: (int, int) = (r as int, c as int);
                    assert(is_land(g0, r as int, c as int) && !cleared_before(g0, pos, x));
                    assert(is_island_root(g0, r as int, c as int)) by {
                        assert forall|b: (int, int)| #[trigger]
                            land_connected(g0, x, b) implies !rm_before(b, x) by {
                            if rm_before(b, x) {
                                lemma_connected_is_land(g0, x, b);
                                lemma_cell_pos_order(g0, b, x);
                                lemma_connected_sym(g0, x, b);
                                assert(cleared_before(g0, pos, x)) by {
                                    reveal(cleared_before);
                                }
                            }
                        }
                    }
                    assert(root_at(g0, pos));
                    lemma_root_count_le(g0, pos);
                    assert(count < i32::MAX);
                }
                count = count + 1;
                let ghost cur_b = grid.deep_view();
                bfs_islands(grid, r, c);
                proof {
                    lemma_scan_after_drain(g0, cur_b, grid.deep_view(), pos, (r as int, c as int));
                    assert(root_count(g0, pos + 1) == root_count(g0, pos) + 1);
                }
            } else {
                proof {
                    lemma_scan_no_drain(g0, grid.deep_view(), pos, (r as int, c as int));
                    assert(!root_at(g0, pos));
                    assert(root_count(g0, pos + 1) == root_count(g0, pos));
                }
            }
            c = c + 1;
        }
        r = r + 1;
        proof {
            assert(r as int * cols as int == (r - 1) as int * cols as int + cols as int)
                by (nonlinear_arith)
                requires
                    r >= 1,
            ;
        }
    }
    proof {
        assert(island_count(g0) == root_count(g0, rows as int * cols as int));
        lemma_scan_dims(g0, grid.deep_view(), rows as int * cols as int);
        assert forall|rr: int, cc: int| in_grid(g0, rr, cc) implies #[trigger] grid.deep_view()[rr][cc]
            == (if g0[rr][cc] == '1' {
            '0'
        } else {
            g0[rr][cc]
        }) by {
            lemma_scan_cell(g0, grid.deep_view(), rows as int * cols as int, rr, cc);
            if g0[rr][cc] == '1' {
                assert(is_land(g0, rr, cc));
                lemma_connected_refl(g0, (rr, cc));
                assert(cell_pos(g0, (rr, cc)) < rows * cols) by (nonlinear_arith)
                    requires
                        0 <= rr < rows,
                        0 <= cc < cols,
                        cell_pos(g0, (rr, cc)) == rr * cols + cc,
                ;
                assert(cleared_before(g0, rows as int * cols as int, (rr, cc))) by {
                    reveal(cleared_before);
                }
            }
        }
    }
    count
}


proof fn lemma_no_land_no_roots(g: Seq<Seq<char>>, pos: int)
    requires
        forall|r: int, c: int| in_grid(g, r, c) ==> #[trigger] g[r][c] != '1',
    ensures
        root_count(g, pos) == 0,
    decreases pos,
{
    if pos > 0 {
        lemma_no_land_no_roots(g, pos - 1);
        assert(!is_land(g, (pos - 1) / g[0].len() as int, (pos - 1) % g[0].len() as int));
    }
}

/// Law: a grid with no land at all holds no island.
pub proof fn lemma_island_count_all_water(g: Seq<Seq<char>>)
    requires
        forall|r: int, c: int| in_grid(g, r, c) ==> #[trigger] g[r][c] != '1',
    ensures
        island_count(g) == 0,
{
    if g.len() > 0 {
        lemma_no_land_no_roots(g, (g.len() * g[0].len()) as int);
    }
}

proof fn lemma_single_land_roots(g: Seq<Seq<char>>, a: (int, int), pos: int)
    requires
        grid_rect(g),
        g.len() >= 1,
        in_grid(g, a.0, a.1),
        is_land(g, a.0, a.1),
        forall|r: int, c: int|
            in_grid(g, r, c) && (r, c) != a ==> #[trigger] g[r][c] != '1',
        0 <= pos <= g.len() * g[0].len(),
    ensures
        root_count(g, pos) == if cell_pos(g, a) < pos {
            1int
        } else {
            0int
        },
    decreases pos,
{
    let w = g[0].len() as int;
    if pos > 0 {
        lemma_single_land_roots(g, a, pos - 1);
        let q = (pos - 1) / w;
        let m = (pos - 1) % w;
        vstd::arithmetic::div_mod::lemma_fundamental_div_mod(pos - 1, w);
        vstd::arithmetic::div_mod::lemma_mod_bound(pos - 1, w);
        assert(q < g.len()) by (nonlinear_arith)
            requires
                pos - 1 == w * q + m,
                0 <= m < w,
                pos - 1 < g.len() * w,
                q >= 0,
        ;
        assert(in_grid(g, q, m));
        if (q, m) == a {
            assert(cell_pos(g, a) == pos - 1) by (nonlinear_arith)
                requires
                    pos - 1 == w * q + m,
                    cell_pos(g, a) == a.0 * w + a.1,
                    a == (q, m),
            ;
            assert(is_island_root(g, q, m)) by {
                assert forall|b: (int, int)| #[trigger]
                    land_connected(g, a, b) implies !rm_before(b, a) by {
                    lemma_connected_is_land(g, a, b);
                    assert(g[b.0][b.1] == '1');
                    if (b.0, b.1) != a {
                        assert(g[b.0][b.1] != '1');
                    }
                    assert(b == (b.0, b.1));
                }
            }
            assert(root_at(g, pos - 1));
        } else {
            assert(g[q][m] != '1');
            assert(!is_land(g, q, m));
            assert(!root_at(g, pos - 1));
            assert(cell_pos(g, (q, m)) == pos - 1);
            lemma_cell_pos_order(g, a, (q, m));
            assert(cell_pos(g, a) != pos - 1);
        }
    }
}

/// Law: a grid whose only land is one single cell holds exactly one
/// island.
pub proof fn lemma_island_count_single_land(g: Seq<Seq<char>>, a: (int, int))
    requires
        grid_rect(g),
        g.len() >= 1,
        in_grid(g, a.0, a.1),
        is_land(g, a.0, a.1),
        forall|r: int, c: int|
            in_grid(g, r, c) && (r, c) != a ==> #[trigger] g[r][c] != '1',
    ensures
        island_count(g) == 1,
{
    let w = g[0].len() as int;
    lemma_single_land_roots(g, a, (g.len() * g[0].len()) as int);
    assert(cell_pos(g, a) < g.len() * w) by (nonlinear_arith)
        requires
            0 <= a.0 < g.len(),
            0 <= a.1 < w,
            cell_pos(g, a) == a.0 * w + a.1,
    ;
}

proof fn lemma_isolated_roots(g: Seq<Seq<char>>, pos: int)
    requires
        grid_rect(g),
        g.len() >= 1,
        forall|x: (int, int), y: (int, int)|
            is_land(g, x.0, x.1) && is_land(g, y.0, y.1) && #[trigger] cells_adjacent(x, y)
                ==> false,
        0 <= pos <= g.len() * g[0].len(),
    ensures
        root_count(g, pos) == land_count(g, pos),
    decreases pos,
{
    let w = g[0].len() as int;
    if pos > 0 {
        lemma_isolated_roots(g, pos - 1);
        let q = (pos - 1) / w;
        let m = (pos - 1) % w;
        vstd::arithmetic::div_mod::lemma_fundamental_div_mod(pos - 1, w);
        vstd::arithmetic::div_mod::lemma_mod_bound(pos - 1, w);
        assert(q < g.len()) by (nonlinear_arith)
            requires
                pos - 1 == w * q + m,
                0 <= m < w,
                pos - 1 < g.len() * w,
                q >= 0,
        ;
        if is_land(g, q, m) {
            assert(is_island_root(g, q, m)) by {
                assert forall|b: (int, int)| #[trigger]
                    land_connected(g, (q, m), b) implies !rm_before(b, (q, m)) by {
                    let pth = choose|pth: Seq<(int, int)>| is_land_path(g, pth, (q, m), b);
                    if pth.len() >= 2 {
                        assert(cells_adjacent(pth[0], pth[1]));
                        assert(is_land(g, pth[0].0, pth[0].1));
                        assert(is_land(g, pth[1].0, pth[1].1));
                    } else {
                        assert(b == (q, m));
                    }
                }
            }
        }
    }
}

/// Number of land cells among the first `pos` positions.
pub open spec fn land_count(g: Seq<Seq<char>>, pos: int) -> int
    decreases pos,
{
    if pos <= 0 {
        0
    } else {
        land_count(g, pos - 1) + if is_land(
            g,
            (pos - 1) / g[0].len() as int,
            (pos - 1) % g[0].len() as int,
        ) {
            1int
        } else {
            0int
        }
    }
}

/// Law: when no two land cells share an edge - touching corners only
/// is not enough - every land cell is its own island.
pub proof fn lemma_island_count_isolated(g: Seq<Seq<char>>)
    requires
        grid_rect(g),
        g.len() >= 1,
        forall|x: (int, int), y: (int, int)|
            is_land(g, x.0, x.1) && is_land(g, y.0, y.1) && #[trigger] cells_adjacent(x, y)
                ==> false,
    ensures
        island_count(g) == land_count(g, (g.len() * g[0].len()) as int),
{
    lemma_isolated_roots(g, (g.len() * g[0].len()) as int);
}

/// Law: a number that is itself a perfect square is the sum of one
/// square, and a positive number is never the sum of zero squares.
pub proof fn lemma_square_sums(s: int, n: int)
    requires
        s >= 1,
        n == square(s),
    ensures
        sum_of_squares(1, n),
        n > 0 ==> !sum_of_squares(0, n),
{
    assert(square(s) >= 1) by (nonlinear_arith)
        requires
            s >= 1,
    ;
    assert(1 <= s && square(s) <= n && sum_of_squares(0, n - square(s)));
}

} // verus!
