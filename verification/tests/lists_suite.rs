use dsa_practice::linked_lists::{
    add_two_numbers, create_list, get_intersection_node, has_cycle, is_palindrome, list_to_vec,
    merge_two_lists, remove_nth_from_end, reverse_list, ListNode,
};

#[test]
fn test_reverse_list() {
    let list = create_list(&[1, 2, 3, 4, 5]);
    let reversed = reverse_list(list);
    assert_eq!(list_to_vec(&reversed), vec![5, 4, 3, 2, 1]);
}

#[test]
fn test_merge_two_lists() {
    let l1 = create_list(&[1, 3, 5]);
    let l2 = create_list(&[2, 4, 6]);
    let merged = merge_two_lists(l1, l2);
    assert_eq!(list_to_vec(&merged), vec![1, 2, 3, 4, 5, 6]);
}

#[test]
fn test_remove_nth_from_end() {
    let list = create_list(&[1, 2, 3, 4, 5]);
    let result = remove_nth_from_end(list, 2);
    assert_eq!(list_to_vec(&result), vec![1, 2, 3, 5]);
}

#[test]
fn test_add_two_numbers() {
    let l1 = create_list(&[2, 4, 3]);
    let l2 = create_list(&[5, 6, 4]);
    let sum = add_two_numbers(l1, l2);
    assert_eq!(list_to_vec(&sum), vec![7, 0, 8]);
}

#[test]
fn test_add_two_numbers_carry_out() {
    let l1 = create_list(&[9, 9]);
    let l2 = create_list(&[1]);
    let sum = add_two_numbers(l1, l2);
    assert_eq!(list_to_vec(&sum), vec![0, 0, 1]);
}

#[test]
fn test_is_palindrome() {
    let palindrome = create_list(&[1, 2, 2, 1]);
    let not_palindrome = create_list(&[1, 2, 3]);
    assert_eq!(is_palindrome(palindrome), true);
    assert_eq!(is_palindrome(not_palindrome), false);
}

#[test]
fn test_is_palindrome_odd_and_empty() {
    assert_eq!(is_palindrome(create_list(&[1, 2, 1])), true);
    assert_eq!(is_palindrome(create_list(&[])), true);
    assert_eq!(is_palindrome(create_list(&[7])), true);
}

#[test]
fn test_has_cycle_boxed_lists() {
    assert_eq!(has_cycle(create_list(&[1, 2, 3])), false);
    assert_eq!(has_cycle(None), false);
}

#[test]
fn test_get_intersection_of_empty() {
    let a = create_list(&[1, 2]);
    assert!(get_intersection_node(a, None).is_none());
    assert!(get_intersection_node(None, None).is_none());
}

#[test]
fn test_list_node_new() {
    let node = ListNode::new(9);
    assert_eq!(node.val, 9);
    assert!(node.next.is_none());
}

#[test]
fn test_create_and_collect_round_trip() {
    let values = vec![4, -1, 0, 8];
    let list = create_list(&values);
    assert_eq!(list_to_vec(&list), values);
    assert!(create_list(&[]).is_none());
}
