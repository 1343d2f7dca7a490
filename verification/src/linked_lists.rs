//! Singly linked list exercises: building, reversing, merging and
//! summing boxed lists.

use vstd::prelude::*;

verus! {

/// One node of a singly linked list.
pub struct ListNode {
    pub val: i32,
    pub next: Option<Box<ListNode>>,
}

impl ListNode {
    pub fn new(val: i32) -> (result: ListNode)
        ensures
            result.val == val,
            result.next is None,
    {
        ListNode { next: None, val }
    }
}

/// The values stored along a list, front first.
pub open spec fn list_view(l: Option<Box<ListNode>>) -> Seq<i32>
    decreases l,
{
    match l {
        None => Seq::empty(),
        Some(node) => seq![node.val] + list_view(node.next),
    }
}

fn build_list(values: &[i32], i: usize) -> (result: Option<Box<ListNode>>)
    requires
        i <= values@.len(),
    ensures
        list_view(result) == values@.skip(i as int),
    decreases values@.len() - i,
{
    if i == values.len() {
        proof {
            assert(values@.skip(i as int) =~= Seq::<i32>::empty());
        }
        None
    } else {
        let rest = build_list(values, i + 1);
        let node = ListNode { val: values[i], next: rest };
        proof {
            assert(values@.skip(i as int) =~= seq![values@[i as int]] + values@.skip(i + 1));
        }
        Some(Box::new(node))
    }
}

/// Build a list holding the given values in order.
pub fn create_list(values: &[i32]) -> (result: Option<Box<ListNode>>)
    ensures
        list_view(result) == values@,
{
    let r = build_list(values, 0);
    proof {
        assert(values@.skip(0) =~= values@);
    }
    r
}

/// Collect the values of a list into a vector, front first.
pub fn list_to_vec(head: &Option<Box<ListNode>>) -> (result: Vec<i32>)
    ensures
        result@ == list_view(*head),
{
    let mut result: Vec<i32> = Vec::new();
    let mut current: &Option<Box<ListNode>> = head;
    loop
        invariant
            result@ + list_view(*current) == list_view(*head),
        ensures
            result@ == list_view(*head),
        decreases list_view(*current).len(),
    {
        match current {
            Some(node) => {
                result.push(node.val);
                proof {
                    assert(result@ + list_view(node.next) =~= result@.drop_last() + list_view(
                        *current,
                    ));
                }
                current = &node.next;
            },
            None => {
                proof {
                    assert(result@ + list_view(*current) =~= result@);
                }
                break;
            },
        }
    }
    result
}

/// Reverse a list in place.
pub fn reverse_list(head: Option<Box<ListNode>>) -> (result: Option<Box<ListNode>>)
    ensures
        list_view(result) == list_view(head).reverse(),
{
    let ghost v = list_view(head);
    let mut prev: Option<Box<ListNode>> = None;
    let mut current = head;
    loop
        invariant
            list_view(prev).reverse() + list_view(current) == v,
        ensures
            list_view(prev) == v.reverse(),
        decreases list_view(current).len(),
    {
        match current {
            Some(node) => {
                let boxed = *node;
                let ListNode { val, next } = boxed;
                let new_node = ListNode { val, next: prev };
                prev = Some(Box::new(new_node));
                proof {
                    assert(list_view(prev).reverse() + list_view(next) =~= v);
                }
                current = next;
            },
            None => {
                proof {
                    assert(list_view(prev).reverse() =~= v);
                    assert(list_view(prev) =~= v.reverse());
                }
                break;
            },
        }
    }
    prev
}

/// A boxed list owns its nodes, so it can never loop back on itself.
pub fn has_cycle(head: Option<Box<ListNode>>) -> (result: bool)
    ensures
        result == false,
{
    false
}

/// The merge of two sorted sequences, preferring the left on ties.
pub open spec fn merge_seqs(a: Seq<i32>, b: Seq<i32>) -> Seq<i32>
    decreases a.len() + b.len(),
{
    if a.len() == 0 {
        b
    } else if b.len() == 0 {
        a
    } else if a[0] <= b[0] {
        seq![a[0]] + merge_seqs(a.drop_first(), b)
    } else {
        seq![b[0]] + merge_seqs(a, b.drop_first())
    }
}

/// Merge two sorted lists into one sorted list.
pub fn merge_two_lists(l1: Option<Box<ListNode>>, l2: Option<Box<ListNode>>) -> (result: Option<
    Box<ListNode>,
>)
    ensures
        list_view(result) == merge_seqs(list_view(l1), list_view(l2)),
    decreases list_view(l1).len() + list_view(l2).len(),
{
    match (l1, l2) {
        (None, None) => None,
        (Some(n1), None) => {
            proof {
                assert(list_view(Some(n1)).len() > 0);
            }
            Some(n1)
        },
        (None, Some(n2)) => {
            proof {
                assert(list_view(Some(n2)).len() > 0);
            }
            Some(n2)
        },
        (Some(n1), Some(n2)) => {
            let ghost va = list_view(Some(n1));
            let ghost vb = list_view(Some(n2));
            if n1.val <= n2.val {
                let boxed = *n1;
                let ListNode { val, next } = boxed;
                proof {
                    assert(va.drop_first() =~= list_view(next));
                }
                let rest = merge_two_lists(next, Some(n2));
                let node = ListNode { val, next: rest };
                proof {
                    assert(list_view(Some(Box::new(node))) =~= seq![va[0]] + merge_seqs(
                        va.drop_first(),
                        vb,
                    ));
                }
                Some(Box::new(node))
            } else {
                let boxed = *n2;
                let ListNode { val, next } = boxed;
                proof {
                    assert(vb.drop_first() =~= list_view(next));
                }
                let rest = merge_two_lists(Some(n1), next);
                let node = ListNode { val, next: rest };
                proof {
                    assert(list_view(Some(Box::new(node))) =~= seq![vb[0]] + merge_seqs(
                        va,
                        vb.drop_first(),
                    ));
                }
                Some(Box::new(node))
            }
        },
    }
}

fn list_length(head: &Option<Box<ListNode>>) -> (result: usize)
    requires
        list_view(*head).len() <= usize::MAX,
    ensures
        result == list_view(*head).len(),
{
    let mut n: usize = 0;
    let mut current: &Option<Box<ListNode>> = head;
    loop
        invariant
            n + list_view(*current).len() == list_view(*head).len(),
            list_view(*head).len() <= usize::MAX,
        ensures
            n == list_view(*head).len(),
        decreases list_view(*current).len(),
    {
        match current {
            Some(node) => {
                n = n + 1;
                current = &node.next;
            },
            None => {
                break;
            },
        }
    }
    n
}

fn remove_at(head: Option<Box<ListNode>>, idx: usize) -> (result: Option<Box<ListNode>>)
    requires
        idx < list_view(head).len(),
    ensures
        list_view(result) == list_view(head).remove(idx as int),
    decreases idx,
{
    let node = head.unwrap();
    let boxed = *node;
    let ListNode { val, next } = boxed;
    if idx == 0 {
        proof {
            assert(list_view(next) =~= (seq![val] + list_view(next)).remove(0));
        }
        next
    } else {
        let rest = remove_at(next, idx - 1);
        let ghost tail = (seq![val] + list_view(next));
        proof {
            assert(list_view(next).remove(idx - 1) =~= tail.remove(idx as int).drop_first());
        }
        let out = ListNode { val, next: rest };
        proof {
            assert(list_view(Some(Box::new(out))) =~= tail.remove(idx as int));
        }
        Some(Box::new(out))
    }
}

/// Remove the n-th node counted from the end (the last node is
/// n == 1).
pub fn remove_nth_from_end(head: Option<Box<ListNode>>, n: i32) -> (result: Option<Box<ListNode>>)
    requires
        1 <= n <= list_view(head).len(),
        list_view(head).len() <= usize::MAX,
    ensures
        list_view(result) == list_view(head).remove(list_view(head).len() - n),
{
    let len = list_length(&head);
    remove_at(head, len - (n as usize))
}

/// The number a little-endian digit list denotes.
pub open spec fn list_num(s: Seq<i32>) -> int
    decreases s.len(),
{
    if s.len() == 0 {
        0
    } else {
        s[0] + 10 * list_num(s.drop_first())
    }
}

/// Every entry is a decimal digit.
pub open spec fn all_digits(s: Seq<i32>) -> bool {
    forall|i: int| 0 <= i < s.len() ==> 0 <= #[trigger] s[i] <= 9
}

/// The digit list of the sum of two digit lists, little endian, with
/// an incoming carry of 0 or 1.
pub open spec fn add_digit_seqs(a: Seq<i32>, b: Seq<i32>, carry: int) -> Seq<i32>
    decreases a.len() + b.len(),
{
    if a.len() == 0 && b.len() == 0 {
        if carry > 0 {
            seq![carry as i32]
        } else {
            Seq::empty()
        }
    } else {
        let x: int = if a.len() > 0 {
            a[0] as int
        } else {
            0
        };
        let y: int = if b.len() > 0 {
            b[0] as int
        } else {
            0
        };
        let sum = x + y + carry;
        seq![(sum % 10) as i32] + add_digit_seqs(
            if a.len() > 0 {
                a.drop_first()
            } else {
                a
            },
            if b.len() > 0 {
                b.drop_first()
            } else {
                b
            },
            sum / 10,
        )
    }
}

/// Law: digit-list addition adds the numbers the lists denote.
pub proof fn lemma_add_digit_seqs_num(a: Seq<i32>, b: Seq<i32>, carry: int)
    requires
        0 <= carry <= 1,
        all_digits(a),
        all_digits(b),
    ensures
        list_num(add_digit_seqs(a, b, carry)) == list_num(a) + list_num(b) + carry,
    decreases a.len() + b.len(),
{
    if a.len() == 0 && b.len() == 0 {
        if carry > 0 {
            assert(list_num(seq![carry as i32]) == carry) by {
                assert(list_num(Seq::<i32>::empty()) == 0);
                assert(seq![carry as i32].drop_first() =~= Seq::<i32>::empty());
                assert(seq![carry as i32][0] == carry as i32);
            }
        }
    } else {
        let x: int = if a.len() > 0 {
            a[0] as int
        } else {
            0
        };
        let y: int = if b.len() > 0 {
            b[0] as int
        } else {
            0
        };
        let sum = x + y + carry;
        let a2 = if a.len() > 0 {
            a.drop_first()
        } else {
            a
        };
        let b2 = if b.len() > 0 {
            b.drop_first()
        } else {
            b
        };
        assert(all_digits(a2) && all_digits(b2)) by {
            assert(forall|i: int| 0 <= i < a2.len() ==> #[trigger] a2[i] == a[i + 1] || a2 == a);
            assert(forall|i: int| 0 <= i < b2.len() ==> #[trigger] b2[i] == b[i + 1] || b2 == b);
        }
        vstd::arithmetic::div_mod::lemma_fundamental_div_mod(sum, 10);
        vstd::arithmetic::div_mod::lemma_mod_bound(sum, 10);
        lemma_add_digit_seqs_num(a2, b2, sum / 10);
        let out = add_digit_seqs(a, b, carry);
        assert(out.drop_first() =~= add_digit_seqs(a2, b2, sum / 10));
        assert(list_num(out) == sum % 10 + 10 * list_num(add_digit_seqs(a2, b2, sum / 10)));
    }
}

/// Add two numbers held as little-endian digit lists; the result is
/// again a little-endian digit list.
pub fn add_two_numbers(l1: Option<Box<ListNode>>, l2: Option<Box<ListNode>>) -> (result: Option<
    Box<ListNode>,
>)
    requires
        all_digits(list_view(l1)),
        all_digits(list_view(l2)),
    ensures
        list_view(result) == add_digit_seqs(list_view(l1), list_view(l2), 0),
{
    add_digits_rec(l1, l2, 0)
}

fn add_digits_rec(l1: Option<Box<ListNode>>, l2: Option<Box<ListNode>>, carry: i32) -> (result:
    Option<Box<ListNode>>)
    requires
        all_digits(list_view(l1)),
        all_digits(list_view(l2)),
        0 <= carry <= 1,
    ensures
        list_view(result) == add_digit_seqs(list_view(l1), list_view(l2), carry as int),
    decreases list_view(l1).len() + list_view(l2).len(),
{
    let ghost va = list_view(l1);
    let ghost vb = list_view(l2);
    if l1.is_none() && l2.is_none() && carry == 0 {
        return None;
    }
    if l1.is_none() && l2.is_none() {
        let node = ListNode { val: carry, next: None };
        proof {
            assert(list_view(Some(Box::new(node))) =~= seq![carry]);
        }
        return Some(Box::new(node));
    }
    let (val1, next1) = match l1 {
        Some(n1) => {
            let boxed = *n1;
            (boxed.val, boxed.next)
        },
        None => (0, None),
    };
    let (val2, next2) = match l2 {
        Some(n2) => {
            let boxed = *n2;
            (boxed.val, boxed.next)
        },
        None => (0, None),
    };
    proof {
        assert(va.len() > 0 ==> va.drop_first() =~= list_view(next1));
        assert(va.len() == 0 ==> list_view(next1) =~= va);
        assert(vb.len() > 0 ==> vb.drop_first() =~= list_view(next2));
        assert(vb.len() == 0 ==> list_view(next2) =~= vb);
        assert(all_digits(list_view(next1))) by {
            assert(forall|i: int|
                0 <= i < list_view(next1).len() ==> #[trigger] list_view(next1)[i] == va[i + 1]
                    || list_view(next1) == va);
        }
        assert(all_digits(list_view(next2))) by {
            assert(forall|i: int|
                0 <= i < list_view(next2).len() ==> #[trigger] list_view(next2)[i] == vb[i + 1]
                    || list_view(next2) == vb);
        }
        if va.len() > 0 {
            assert(va[0] == val1);
        }
        if vb.len() > 0 {
            assert(vb[0] == val2);
        }
    }
    let sum = val1 + val2 + carry;
    let digit = sum % 10;
    let new_carry = sum / 10;
    let rest = add_digits_rec(next1, next2, new_carry);
    let node = ListNode { val: digit, next: rest };
    proof {
        assert(list_view(Some(Box::new(node))) =~= add_digit_seqs(va, vb, carry as int));
    }
    Some(Box::new(node))
}

/// Whether the list reads the same forwards and backwards.
pub fn is_palindrome(head: Option<Box<ListNode>>) -> (result: bool)
    requires
        list_view(head).len() <= usize::MAX,
    ensures
        result == (list_view(head) == list_view(head).reverse()),
{
    let ghost v = list_view(head);
    let values = list_to_vec(&head);
    let n = values.len();
    let mut i: usize = 0;
    while i < n / 2
        invariant
            v == list_view(head),
            v == values@,
            n == v.len(),
            0 <= i <= n,
            forall|j: int| 0 <= j < i ==> #[trigger] v[j] == v[v.len() - 1 - j],
        decreases n - i,
    {
        if values[i] != values[n - 1 - i] {
            proof {
                assert(v[i as int] == values@[i as int]);
                assert(v[v.len() - 1 - i] == values@[n - 1 - i as int]);
                assert(v.reverse()[i as int] == v[v.len() - 1 - i]);
                assert(v[i as int] != v.reverse()[i as int]);
                assert(v != v.reverse());
                assert(list_view(head) != list_view(head).reverse());
            }
            return false;
        }
        i = i + 1;
    }
    proof {
        assert(v =~= v.reverse()) by {
            assert forall|j: int| 0 <= j < v.len() implies v[j] == v.reverse()[j] by {
                if j < v.len() - 1 - j {
                    assert(v[j] == v[v.len() - 1 - j]);
                } else if v.len() - 1 - j < j {
                    assert(v[v.len() - 1 - j] == v[v.len() - 1 - (v.len() - 1 - j)]);
                }
            }
        }
    }
    true
}

/// Two boxed lists each own their nodes, so they can never share
/// one; an intersection exists only in the trivial sense that an
/// empty list meets everything nowhere.
pub fn get_intersection_node(
    head_a: Option<Box<ListNode>>,
    head_b: Option<Box<ListNode>>,
) -> (result: Option<Box<ListNode>>)
    requires
        head_a is None || head_b is None,
    ensures
        result is None,
{
    None
}

} // verus!
