use data_structures::binary_search_tree::{BinarySearchTree, BinarySearchTreeIter};

fn prequel_memes_tree() -> BinarySearchTree<&'static str> {
    let mut tree = BinarySearchTree::new();
    tree.insert("hello there");
    tree.insert("general kenobi");
    tree.insert("you are a bold one");
    tree.insert("kill him");
    tree.insert("back away...I will deal with this jedi slime myself");
    tree.insert("your move");
    tree.insert("you fool");
    tree
}

fn tree_of(values: &[i32]) -> BinarySearchTree<i32> {
    let mut tree = BinarySearchTree::new();
    for v in values {
        tree.insert(*v);
    }
    tree
}

fn in_order(tree: &BinarySearchTree<i32>) -> Vec<i32> {
    let mut iter = tree.iter();
    let mut values = Vec::new();
    while let Some(v) = iter.next() {
        values.push(*v);
    }
    values
}

#[test]
fn test_search() {
    let tree = prequel_memes_tree();
    assert!(tree.search(&"hello there"));
    assert!(tree.search(&"you are a bold one"));
    assert!(tree.search(&"general kenobi"));
    assert!(tree.search(&"you fool"));
    assert!(tree.search(&"kill him"));
    assert!(
        !tree.search(&"but i was going to tosche station to pick up some power converters",)
    );
    assert!(!tree.search(&"only a sith deals in absolutes"));
    assert!(!tree.search(&"you underestimate my power"));
}

#[test]
fn test_maximum_and_minimum() {
    let tree = prequel_memes_tree();
    assert_eq!(*tree.maximum().unwrap(), "your move");
    assert_eq!(
        *tree.minimum().unwrap(),
        "back away...I will deal with this jedi slime myself"
    );
    let mut tree2: BinarySearchTree<i32> = BinarySearchTree::new();
    assert!(tree2.maximum().is_none());
    assert!(tree2.minimum().is_none());
    tree2.insert(0);
    assert_eq!(*tree2.minimum().unwrap(), 0);
    assert_eq!(*tree2.maximum().unwrap(), 0);
    tree2.insert(-5);
    assert_eq!(*tree2.minimum().unwrap(), -5);
    assert_eq!(*tree2.maximum().unwrap(), 0);
    tree2.insert(5);
    assert_eq!(*tree2.minimum().unwrap(), -5);
    assert_eq!(*tree2.maximum().unwrap(), 5);
}

#[test]
fn test_floor_and_ceil() {
    let tree = prequel_memes_tree();
    assert_eq!(*tree.floor(&"hello there").unwrap(), "hello there");
    assert_eq!(
        *tree
            .floor(&"these are not the droids you're looking for")
            .unwrap(),
        "kill him"
    );
    assert!(tree.floor(&"another death star").is_none());
    assert_eq!(*tree.floor(&"you fool").unwrap(), "you fool");
    assert_eq!(
        *tree.floor(&"but i was going to tasche station").unwrap(),
        "back away...I will deal with this jedi slime myself"
    );
    assert_eq!(
        *tree.floor(&"you underestimate my power").unwrap(),
        "you fool"
    );
    assert_eq!(*tree.floor(&"your new empire").unwrap(), "your move");
    assert_eq!(*tree.ceil(&"hello there").unwrap(), "hello there");
    assert_eq!(
        *tree
            .ceil(&"these are not the droids you're looking for")
            .unwrap(),
        "you are a bold one"
    );
    assert_eq!(
        *tree.ceil(&"another death star").unwrap(),
        "back away...I will deal with this jedi slime myself"
    );
    assert_eq!(*tree.ceil(&"you fool").unwrap(), "you fool");
    assert_eq!(
        *tree.ceil(&"but i was going to tasche station").unwrap(),
        "general kenobi"
    );
    assert_eq!(
        *tree.ceil(&"you underestimate my power").unwrap(),
        "your move"
    );
    assert!(tree.ceil(&"your new empire").is_none());
}

#[test]
fn test_iterator() {
    let tree = prequel_memes_tree();
    let mut iter = tree.iter();
    assert_eq!(
        iter.next().unwrap(),
        &"back away...I will deal with this jedi slime myself"
    );
    assert_eq!(iter.next().unwrap(), &"general kenobi");
    assert_eq!(iter.next().unwrap(), &"hello there");
    assert_eq!(iter.next().unwrap(), &"kill him");
    assert_eq!(iter.next().unwrap(), &"you are a bold one");
    assert_eq!(iter.next().unwrap(), &"you fool");
    assert_eq!(iter.next().unwrap(), &"your move");
    assert_eq!(iter.next(), None);
    assert_eq!(iter.next(), None);
}

#[test]
fn empty_tree_holds_nothing() {
    let tree: BinarySearchTree<i32> = BinarySearchTree::default();
    assert!(!tree.search(&0));
    assert_eq!(tree.minimum(), None);
    assert_eq!(tree.maximum(), None);
    assert_eq!(tree.floor(&0), None);
    assert_eq!(tree.ceil(&0), None);
    let mut iter = BinarySearchTreeIter::new(&tree);
    assert_eq!(iter.next(), None);
    assert_eq!(iter.next(), None);
}

#[test]
fn values_come_out_in_order() {
    let tree = tree_of(&[50, 30, 70, 20, 40, 60, 80, 35, 45, 65]);
    assert_eq!(in_order(&tree), vec![20, 30, 35, 40, 45, 50, 60, 65, 70, 80]);
    assert_eq!(tree.minimum(), Some(&20));
    assert_eq!(tree.maximum(), Some(&80));
}

#[test]
fn equal_values_are_kept() {
    let tree = tree_of(&[5, 3, 5, 8, 3, 5]);
    assert_eq!(in_order(&tree), vec![3, 3, 5, 5, 5, 8]);
    assert!(tree.search(&5));
    assert!(tree.search(&3));
    assert!(!tree.search(&4));
}

#[test]
fn floor_and_ceil_of_numbers() {
    let tree = tree_of(&[50, 30, 70, 20, 40, 60, 80]);
    assert_eq!(tree.floor(&19), None);
    assert_eq!(tree.floor(&20), Some(&20));
    assert_eq!(tree.floor(&49), Some(&40));
    assert_eq!(tree.floor(&50), Some(&50));
    assert_eq!(tree.floor(&1000), Some(&80));
    assert_eq!(tree.ceil(&81), None);
    assert_eq!(tree.ceil(&80), Some(&80));
    assert_eq!(tree.ceil(&51), Some(&60));
    assert_eq!(tree.ceil(&50), Some(&50));
    assert_eq!(tree.ceil(&-1000), Some(&20));
}

#[test]
fn ascending_insertions_form_a_chain() {
    let values: Vec<i32> = (0..200).collect();
    let tree = tree_of(&values);
    assert_eq!(in_order(&tree), values);
    assert_eq!(tree.floor(&150), Some(&150));
    assert_eq!(tree.ceil(&200), None);
}
