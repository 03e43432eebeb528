use ordered_bst::bst::{BST, BstError};
use ordered_bst::word::Word;

#[test]
fn insert_three_numbers() -> Result<(), BstError> {
    let mut tree = BST::new();
    tree.insert(5)?;
    tree.insert(10)?;
    tree.insert(3)?;
    println!("{:#?}", tree);
    Ok(())
}

#[test]
fn insert_five_numbers() -> Result<(), BstError> {
    let mut tree = BST::new();
    tree.insert(5)?;
    tree.insert(10)?;
    tree.insert(3)?;
    tree.insert(4)?;
    tree.insert(9)?;
    println!("{:#?}", tree);
    Ok(())
}

#[test]
fn insert_duplicate() -> Result<(), BstError> {
    let mut tree = BST::new();
    tree.insert(5)?;
    match tree.insert(5) {
        Err(BstError::DuplicateInsert) => Ok(()),
        _ => panic!("Insert duplicate didn't fail."),
    }
}

#[test]
fn search_five_numbers() -> Result<(), BstError> {
    let mut tree = BST::new();
    tree.insert(5)?;
    tree.insert(10)?;
    tree.insert(3)?;
    tree.insert(4)?;
    tree.insert(9)?;

    assert!(tree.contains(&5));
    assert!(!tree.contains(&15));
    assert!(tree.contains(&5));
    assert!(tree.contains(&3));
    assert!(tree.contains(&10));
    assert!(tree.contains(&4));
    assert!(tree.contains(&9));
    assert!(!tree.contains(&192912));

    Ok(())
}

#[test]
fn search_five_words() -> Result<(), BstError> {
    let mut tree = BST::<Word>::new();
    tree.insert(Word::from_bytes(b"hello"))?;
    tree.insert(Word::from_bytes(b"my"))?;
    tree.insert(Word::from_bytes(b"beautiful"))?;
    tree.insert(Word::from_bytes(b"world"))?;
    tree.insert(Word::from_bytes(b"!"))?;

    assert!(tree.contains(&Word::from_bytes(b"world")));
    assert!(!tree.contains(&Word::from_bytes(b"ugly")));
    assert!(!tree.contains(&Word::from_bytes(b"ugly")));
    assert!(tree.contains(&Word::from_bytes(b"hello")));
    assert!(tree.contains(&Word::from_bytes(b"my")));
    assert!(tree.contains(&Word::from_bytes(b"world")));
    assert!(tree.contains(&Word::from_bytes(b"!")));
    assert!(tree.contains(&Word::from_bytes(b"beautiful")));
    assert!(!tree.contains(&Word::from_bytes(b"banana")));

    Ok(())
}

#[test]
fn insert_and_delete_one_word() -> Result<(), BstError> {
    let mut tree = BST::<Word>::new();
    assert!(!tree.contains(&Word::from_bytes(b"hello")));
    tree.insert(Word::from_bytes(b"hello"))?;
    assert!(tree.contains(&Word::from_bytes(b"hello")));
    tree.delete(&Word::from_bytes(b"hello"))?;
    assert!(!tree.contains(&Word::from_bytes(b"hello")));

    println!("{:#?}", tree);
    Ok(())
}

#[test]
fn insert_and_delete_five_numbers() -> Result<(), BstError> {
    let mut tree = BST::new();

    // Inserts 10 and then deletes it.
    assert!(!tree.contains(&10));
    tree.insert(10)?;
    assert!(tree.contains(&10));
    tree.delete(&10)?;
    assert!(!tree.contains(&10));

    // Inserts 5 and then deletes it.
    assert!(!tree.contains(&5));
    tree.insert(5)?;
    assert!(tree.contains(&5));
    tree.delete(&5)?;
    assert!(!tree.contains(&5));

    // Inserts 7 and 8.
    assert!(!tree.contains(&7));
    tree.insert(7)?;
    assert!(!tree.contains(&8));
    tree.insert(8)?;

    // Checks if BST contains both 7 and 8.
    assert!(tree.contains(&7));
    assert!(tree.contains(&8));

    // Deletes 7 and checks if 7 was deleted and if BST contains 8.
    tree.delete(&7)?;
    assert!(!tree.contains(&7));
    assert!(tree.contains(&8));

    // Deletes 8 and checks if 8 was deleted.
    tree.delete(&8)?;
    assert!(!tree.contains(&8));

    Ok(())
}

#[test]
fn delete_numbers() -> Result<(), BstError> {
    let mut tree = BST::new();

    tree.insert(100)?;
    tree.insert(50)?;
    tree.insert(70)?;
    tree.insert(80)?;
    tree.insert(200)?;
    tree.insert(68)?;
    tree.insert(60)?;
    tree.insert(59)?;
    tree.insert(54)?;
    tree.insert(55)?;
    tree.insert(30)?;

    assert!(tree.contains(&50));
    println!("BEFORE {:#?}", tree);
    tree.delete(&50)?;
    println!("AFTER {:#?}", tree);
    assert!(!tree.contains(&50));

    Ok(())
}

#[test]
fn random_insert_1000000_numbers() -> Result<(), BstError> {
    let mut tree = BST::new();

    // seed of CONG generator
    let mut jcong = 380_116_160i64;

    for _ in 0..1_000_000 {
        tree.insert(jcong)?; // Inserts random number.

        jcong = jcong.overflowing_mul(69_069).0.overflowing_add(1_234_567).0;
    }

    Ok(())
}
