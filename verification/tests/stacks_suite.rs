use dsa_practice::stacks::{
    daily_temperatures, decode_string, eval_rpn, is_valid_parentheses, largest_rectangle_area,
    next_greater_elements, simplify_path, MinStack,
};

#[test]
fn test_valid_parentheses() {
    assert_eq!(is_valid_parentheses("()"), true);
    assert_eq!(is_valid_parentheses("()[]{}"), true);
    assert_eq!(is_valid_parentheses("(]"), false);
    assert_eq!(is_valid_parentheses("([)]"), false);
}

#[test]
fn test_valid_parentheses_edges() {
    assert_eq!(is_valid_parentheses(""), true);
    assert_eq!(is_valid_parentheses("("), false);
    assert_eq!(is_valid_parentheses("]"), false);
    assert_eq!(is_valid_parentheses("a"), false);
    assert_eq!(is_valid_parentheses("{[()]}"), true);
}

#[test]
fn test_min_stack() {
    let mut stack = MinStack::new();
    stack.push(3);
    stack.push(5);
    stack.push(2);
    stack.push(1);

    assert_eq!(*stack.get_min().unwrap(), 1);
    assert_eq!(stack.pop(), Some(1));
    assert_eq!(*stack.get_min().unwrap(), 2);
}

#[test]
fn test_min_stack_duplicates() {
    let mut stack = MinStack::new();
    stack.push(1);
    stack.push(1);
    assert_eq!(stack.pop(), Some(1));
    assert_eq!(*stack.get_min().unwrap(), 1);
    assert_eq!(*stack.top().unwrap(), 1);
    assert_eq!(stack.pop(), Some(1));
    assert!(stack.get_min().is_none());
    assert!(stack.pop().is_none());
}

#[test]
fn test_eval_rpn() {
    let tokens = vec![
        "2".to_string(),
        "1".to_string(),
        "+".to_string(),
        "3".to_string(),
        "*".to_string(),
    ];
    assert_eq!(eval_rpn(&tokens), 9);
}

#[test]
fn test_eval_rpn_truncating_division() {
    let tokens = vec!["7".to_string(), "-3".to_string(), "/".to_string()];
    assert_eq!(eval_rpn(&tokens), -2);
    let tokens = vec!["-13".to_string(), "5".to_string(), "/".to_string()];
    assert_eq!(eval_rpn(&tokens), -2);
}

#[test]
fn test_largest_rectangle_area() {
    let heights = vec![2, 1, 5, 6, 2, 3];
    assert_eq!(largest_rectangle_area(&heights), 10);
}

#[test]
fn test_largest_rectangle_area_edges() {
    assert_eq!(largest_rectangle_area(&[]), 0);
    assert_eq!(largest_rectangle_area(&[4]), 4);
    assert_eq!(largest_rectangle_area(&[2, 2, 2]), 6);
    assert_eq!(largest_rectangle_area(&[-3, -1]), 0);
}

#[test]
fn test_next_greater_elements() {
    let nums = vec![4, 1, 2];
    assert_eq!(next_greater_elements(&nums), vec![-1, 2, -1]);
}

#[test]
fn test_next_greater_elements_ties() {
    assert_eq!(next_greater_elements(&[2, 2, 3]), vec![3, 3, -1]);
    assert_eq!(next_greater_elements(&[]), Vec::<i32>::new());
}

#[test]
fn test_daily_temperatures() {
    let temps = vec![73, 74, 75, 71, 69, 72, 76, 73];
    assert_eq!(daily_temperatures(&temps), vec![1, 1, 4, 2, 1, 1, 0, 0]);
}

#[test]
fn test_decode_string() {
    assert_eq!(decode_string("3[a]2[bc]"), "aaabcbc");
    assert_eq!(decode_string("3[a2[c]]"), "accaccacc");
}

#[test]
fn test_decode_string_edges() {
    assert_eq!(decode_string(""), "");
    assert_eq!(decode_string("abc"), "abc");
    assert_eq!(decode_string("10[x]"), "xxxxxxxxxx");
    assert_eq!(decode_string("0[q]w"), "w");
}

#[test]
fn test_simplify_path() {
    assert_eq!(simplify_path("/home//foo/"), "/home/foo");
    assert_eq!(simplify_path("/../"), "/");
}

#[test]
fn test_simplify_path_edges() {
    assert_eq!(simplify_path("/a/./b/../../c/"), "/c");
    assert_eq!(simplify_path(""), "/");
    assert_eq!(simplify_path("/..."), "/...");
}
