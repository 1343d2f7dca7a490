//! Binary tree node, the building block for the tree exercises.

use vstd::prelude::*;

verus! {

/// One node of a binary tree.
pub struct TreeNode {
    pub val: i32,
    pub left: Option<Box<TreeNode>>,
    pub right: Option<Box<TreeNode>>,
}

impl TreeNode {
    pub fn new(val: i32) -> (result: TreeNode)
        ensures
            result.val == val,
            result.left is None,
            result.right is None,
    {
        TreeNode { val, left: None, right: None }
    }
}

} // verus!
