use mcts::engine::MCTS;
use mcts::nim::NimState;
use mcts::tree::Tree;

#[test]
fn test_tree() {
    let mut tree = Tree::<i32, i32>::new(0);
    tree.add_child(0, 1, 1);
    tree.add_child(0, 2, 2);

    assert_eq!(tree.nodes[0].children.len(), 2);
    assert_eq!(tree.nodes[tree.nodes[0].children[0]].state, 1);
    assert_eq!(tree.nodes[tree.nodes[0].children[1]].state, 2);
}

#[test]
fn test_mcts() {
    // this test is not deterministic, but more for a sanity/visual check

    let mut mcts = MCTS::new(NimState::new(100));
    mcts.search(1);

    for child in mcts.tree.nodes[0].children.iter() {
        println!("{:?}", (mcts.tree.nodes[*child].visits, mcts.tree.nodes[*child].value));
    }

    mcts.search(1000);

    println!("Principal variation: {:?}", mcts.get_principal_variation());
}

#[test]
fn search_zero_leaves_tree_untouched() {
    let mut mcts = MCTS::new(NimState::new(5));
    mcts.search(0);
    assert_eq!(mcts.tree.nodes.len(), 1);
    assert_eq!(mcts.tree.nodes[0].visits, 0);
    assert_eq!(mcts.tree.nodes[0].value, 0);
    assert!(mcts.tree.nodes[0].children.is_empty());
}

#[test]
fn search_one_expands_root_once() {
    let mut mcts = MCTS::new(NimState::new(5));
    mcts.search(1);
    assert_eq!(mcts.tree.nodes[0].children.len(), 5);
    assert_eq!(mcts.tree.nodes[0].visits, 1);
}

#[test]
fn search_one_expands_in_action_order_and_rolls_out_first_child() {
    let mut mcts = MCTS::new(NimState::new(3));
    mcts.search(1);
    let kids = mcts.tree.nodes[0].children.clone();
    assert_eq!(kids.len(), 3);
    for (k, c) in kids.iter().enumerate() {
        assert_eq!(mcts.tree.nodes[*c].action, Some(k as u64 + 1));
        assert_eq!(mcts.tree.nodes[*c].state.heap, 3 - (k as u64 + 1));
    }
    // exactly the first (zero-visit priority) child carries the rollout
    assert_eq!(mcts.tree.nodes[kids[0]].visits, 1);
    assert_eq!(mcts.tree.nodes[0].value, mcts.tree.nodes[kids[0]].value);
    for c in kids.iter().skip(1) {
        assert_eq!(mcts.tree.nodes[*c].visits, 0);
        assert_eq!(mcts.tree.nodes[*c].value, 0);
    }
}

#[test]
fn root_visits_counts_iterations() {
    let mut mcts = MCTS::new(NimState::new(7));
    mcts.search(7);
    assert_eq!(mcts.tree.nodes[0].visits, 7);
    mcts.search(5);
    assert_eq!(mcts.tree.nodes[0].visits, 12);
}

#[test]
fn search_on_terminal_root_only_backpropagates() {
    let mut mcts = MCTS::new(NimState::new(0));
    mcts.search(4);
    assert!(mcts.tree.nodes[0].children.is_empty());
    assert_eq!(mcts.tree.nodes[0].visits, 4);
    assert_eq!(mcts.tree.nodes[0].value, 4);
}

#[test]
fn backpropagate_updates_exactly_the_path() {
    let mut mcts = MCTS::new(NimState::new(2));
    mcts.expand(0);
    assert_eq!(mcts.tree.nodes[0].children.len(), 2);
    let c0 = mcts.tree.nodes[0].children[0];
    let c1 = mcts.tree.nodes[0].children[1];
    mcts.backpropagate(c0, 5);
    assert_eq!(mcts.tree.nodes[c0].visits, 1);
    assert_eq!(mcts.tree.nodes[c0].value, 5);
    assert_eq!(mcts.tree.nodes[0].visits, 1);
    assert_eq!(mcts.tree.nodes[0].value, 5);
    assert_eq!(mcts.tree.nodes[c1].visits, 0);
    assert_eq!(mcts.tree.nodes[c1].value, 0);
}

#[test]
fn select_prefers_unvisited_children() {
    let mut mcts = MCTS::new(NimState::new(5));
    mcts.expand(0);
    let c0 = mcts.tree.nodes[0].children[0];
    let c1 = mcts.tree.nodes[0].children[1];
    // all children unvisited: the first one wins
    assert_eq!(mcts.select(0), c0);
    // a visited first child loses to the still-unvisited second one
    mcts.backpropagate(c0, 1);
    assert_eq!(mcts.select(0), c1);
}

#[test]
fn add_child_never_merges_equal_children() {
    let mut tree = Tree::<i32, i32>::new(0);
    tree.add_child(0, 7, 9);
    tree.add_child(0, 7, 9);
    assert_eq!(tree.nodes[0].children.len(), 2);
    let a = tree.nodes[0].children[0];
    let b = tree.nodes[0].children[1];
    assert_ne!(a, b);
    assert_eq!(tree.nodes[a].state, 7);
    assert_eq!(tree.nodes[b].state, 7);
    assert_eq!(tree.nodes[a].action, Some(9));
    assert_eq!(tree.nodes[b].action, Some(9));
}

#[test]
fn principal_variation_breaks_ties_by_encounter_order() {
    let mut mcts = MCTS::new(NimState::new(2));
    mcts.expand(0);
    let c0 = mcts.tree.nodes[0].children[0];
    let c1 = mcts.tree.nodes[0].children[1];
    mcts.backpropagate(c0, 1);
    mcts.backpropagate(c1, 1);
    // both children have one visit: the first is followed
    assert_eq!(mcts.get_principal_variation(), vec![1]);
}

#[test]
fn principal_variation_empty_before_search() {
    let mcts = MCTS::new(NimState::new(9));
    assert!(mcts.get_principal_variation().is_empty());
}

#[test]
fn simulate_reaches_the_terminal_reward() {
    let mcts = MCTS::new(NimState::new(10));
    // every playout of the counting game empties the pile, reward 1
    assert_eq!(mcts.simulate(NimState::new(10)), 1);
}

#[test]
fn principal_variation_reaches_terminal() {
    // the end-to-end scenario: pile of 3, 200 iterations; the recommended
    // moves must subtract to exactly 0
    let mut mcts = MCTS::new(NimState::new(3));
    mcts.search(200);
    let pv = mcts.get_principal_variation();
    let mut sum: u64 = 0;
    for a in pv.iter() {
        sum += *a;
    }
    assert_eq!(sum, 3);
}
