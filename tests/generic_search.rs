use state_search::generic_search::{binary_contains, linear_contains, Search};
use state_search::tree::Tree;

fn tree1(goal: usize) -> Tree {
    //       0
    //   1       2
    // 3   4      5
    //6 7   8   9  10
    Tree {
        parent_of: vec![0, 0, 0, 1, 1, 2, 3, 3, 4, 5, 5],
        child_of: vec![
            vec![1, 2],
            vec![3, 4],
            vec![5],
            vec![6, 7],
            vec![8],
            vec![9, 10],
            vec![],
            vec![],
            vec![],
            vec![],
            vec![],
        ],
        goal,
    }
}

#[test]
fn tree1_dfs() {
    let t = tree1(10);
    let h = t.dfs();
    assert_eq!(h, Some(vec![0, 1, 3, 6, 7, 4, 8, 2, 5, 9, 10]));
}

#[test]
fn tree1_bfs() {
    let t = tree1(10);
    let h = t.bfs();
    assert_eq!(h, Some(vec![0, 1, 2, 3, 4, 5, 6, 7, 8, 9, 10]));
}

#[test]
fn tree2_dfs() {
    let t = Tree {
        parent_of: vec![0, 0, 0, 1, 1, 2, 2],
        child_of: vec![
            vec![1, 2],
            vec![3, 4],
            vec![5, 6],
            vec![],
            vec![],
            vec![],
            vec![],
        ],
        goal: 6,
    };
    let h = t.dfs();
    assert_eq!(h, Some(vec![0, 1, 3, 4, 2, 5, 6]))
}

#[test]
fn initial_goal_gives_single_state() {
    let t = tree1(0);
    assert_eq!(t.dfs(), Some(vec![0]));
    assert_eq!(t.bfs(), Some(vec![0]));
}

#[test]
fn unreachable_goal_gives_no_path() {
    // 11 is no node of the tree, so no reachable state is the goal.
    let t = tree1(11);
    assert_eq!(t.dfs(), None);
    assert_eq!(t.bfs(), None);
}

#[test]
fn shared_successors_are_visited_once() {
    // 0 -> 1, 2; 1 -> 3; 2 -> 3, 0; 3 -> 4; goal 4.
    let t = Tree {
        parent_of: vec![],
        child_of: vec![vec![1, 2], vec![3], vec![3, 0], vec![4], vec![]],
        goal: 4,
    };
    assert_eq!(t.bfs(), Some(vec![0, 1, 2, 3, 4]));
    assert_eq!(t.dfs(), Some(vec![0, 1, 3, 4]));
}

#[test]
fn cycle_without_goal_terminates() {
    let t = Tree {
        parent_of: vec![],
        child_of: vec![vec![1], vec![2], vec![0]],
        goal: 7,
    };
    assert_eq!(t.dfs(), None);
    assert_eq!(t.bfs(), None);
}

#[test]
fn bfs_goal_is_nearest_goal() {
    // The goal is one step from the root along the second branch and three steps
    // along the first: breadth-first search takes the short way.
    let t = Tree {
        parent_of: vec![0, 0, 1, 2, 0],
        child_of: vec![vec![1, 4], vec![2], vec![3], vec![4], vec![]],
        goal: 4,
    };
    assert_eq!(t.bfs(), Some(vec![0, 1, 4]));
    assert_eq!(t.dfs(), Some(vec![0, 1, 2, 3, 4]));
}

#[test]
fn linear_contains_finds_present_keys() {
    let v = vec![5, 3, 9, 1];
    assert!(linear_contains(&v, &9));
    assert!(linear_contains(&v, &5));
    assert!(!linear_contains(&v, &4));
    let empty: Vec<i32> = vec![];
    assert!(!linear_contains(&empty, &4));
}

#[test]
fn binary_contains_on_unsorted_input() {
    let v = vec![5, 3, 9, 1, 7];
    assert!(binary_contains(&v, &1));
    assert!(binary_contains(&v, &9));
    assert!(binary_contains(&v, &5));
    assert!(!binary_contains(&v, &4));
    assert!(!binary_contains(&v, &10));
    let empty: Vec<u8> = vec![];
    assert!(!binary_contains(&empty, &0));
}
