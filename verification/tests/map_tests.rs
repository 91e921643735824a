use hashmap::iter::{HashMapIntoIterator, HashMapIterator};
use hashmap::HashMap;

#[test]
fn test_hasher() {
    let hm: HashMap<String, String> = HashMap::new();
    assert_eq!(hm.get_ht(&"Hello".to_string()), None);
}

#[test]
fn basic_insert() {
    let mut hm = HashMap::new();
    hm.insert(3, 3);
    assert_eq!(hm.get(&3), Some(&3));
    assert!(hm.contains_key(&3));
    hm.insert(4, 4);
    assert_eq!(hm.get(&4), Some(&4));
    assert!(hm.contains_key(&4));
    hm.insert(5, 5);
    assert_eq!(hm.get(&5), Some(&5));
    assert!(hm.contains_key(&5));
    hm.insert(6, 6);
    assert_eq!(hm.get(&6), Some(&6));
    assert!(hm.contains_key(&6));
}

// From std documentation example
#[test]
fn basic_functionality() {
    let mut book_reviews = HashMap::new();

    // Review some books.
    book_reviews.insert(
        "Adventures of Huckleberry Finn".to_string(),
        "My favorite book.".to_string(),
    );
    book_reviews.insert(
        "Grimms' Fairy Tales".to_string(),
        "Masterpiece.".to_string(),
    );
    book_reviews.insert(
        "Pride and Prejudice".to_string(),
        "Very enjoyable.".to_string(),
    );
    book_reviews.insert(
        "The Adventures of Sherlock Holmes".to_string(),
        "Eye lyked it alot.".to_string(),
    );

    assert!(book_reviews.contains_key(&"Adventures of Huckleberry Finn".to_string()));
    assert!(book_reviews.contains_key(&"Grimms' Fairy Tales".to_string()));
    assert!(book_reviews.contains_key(&"Pride and Prejudice".to_string()));
    assert!(book_reviews.contains_key(&"The Adventures of Sherlock Holmes".to_string()));
    assert!(!book_reviews.contains_key(&"Les Misérables".to_string()));

    assert_eq!(book_reviews.len(), 4);

    // oops, this review has a lot of spelling mistakes, let's delete it.
    book_reviews.remove(&"The Adventures of Sherlock Holmes".to_string());
    assert!(!book_reviews.contains_key(&"The Adventures of Sherlock Holmes".to_string()));
    assert_eq!(book_reviews.len(), 3);

    let to_find = ["Pride and Prejudice", "Alice's Adventure in Wonderland"];
    let to_find_answer_is_some = [true, false];
    for (id, &book) in to_find.iter().enumerate() {
        assert_eq!(
            book_reviews.get(&book.to_string()).is_some(),
            to_find_answer_is_some[id]
        );
    }

    // Look up the value for a key (will panic if the key is not found).
    assert_eq!(
        *book_reviews.index(&"Pride and Prejudice".to_string()),
        "Very enjoyable.".to_string()
    );

    let review_answer = [
        ("Adventures of Huckleberry Finn", "My favorite book."),
        ("Grimms' Fairy Tales", "Masterpiece."),
        ("Pride and Prejudice", "Very enjoyable."),
    ];

    let mut it: HashMapIterator<String, String> = book_reviews.iter();
    while let Some((key, review)) = it.next() {
        for (k, v) in &review_answer {
            if key == k {
                assert_eq!(review, v);
            }
        }
    }

    let mut it: HashMapIntoIterator<String, String> = book_reviews.into_iter();
    while let Some((key, review)) = it.next() {
        for (k, v) in review_answer {
            if key == *k {
                assert_eq!(review, *v);
            }
        }
    }
}

#[test]
fn test_insert_update() {
    let mut hm = HashMap::new();

    hm.insert(3, 3);
    assert_eq!(hm.get(&3), Some(&3));
    hm.insert(3, 4);
    assert_eq!(hm.get(&3), Some(&4));

    let mut hm = HashMap::new();

    hm.insert("Hello".to_string(), 3);
    assert_eq!(hm.get(&"Hello".to_string()), Some(&3));
    hm.insert("Hello".to_string(), 4);
    assert_eq!(hm.get(&"Hello".to_string()), Some(&4));
}

// From std documentation example
#[test]
fn basic_iter() {
    let mut book_reviews = HashMap::new();

    // Review some books.
    book_reviews.insert(
        "Adventures of Huckleberry Finn".to_string(),
        "My favorite book.".to_string(),
    );
    book_reviews.insert(
        "Grimms' Fairy Tales".to_string(),
        "Masterpiece.".to_string(),
    );
    book_reviews.insert(
        "Pride and Prejudice".to_string(),
        "Very enjoyable.".to_string(),
    );

    let review_answer = ["My favorite book.", "Masterpiece.", "Very enjoyable."];
    let mut idx = 0;
    let mut it = book_reviews.iter();
    while let Some((_, review)) = it.next() {
        assert_eq!(review, review_answer[idx]);
        idx += 1;
    }

    let review_answer = ["My favorite book.", "Masterpiece.", "Very enjoyable."];
    let mut idx = 0;
    let mut it = book_reviews.into_iter();
    while let Some((_, review)) = it.next() {
        assert_eq!(review, review_answer[idx]);
        idx += 1;
    }
}

#[test]
fn fill_past_grow_threshold() {
    // Five entries into a fresh map: the first insert sizes the storage to
    // the minimum of four buckets, and the load crosses the 3/4 threshold by
    // the fourth or fifth insert, forcing a grow and a full rehash. Nothing
    // may be lost or duplicated by it.
    let mut hm = HashMap::new();
    assert_eq!(hm.get_ht(&"a".to_string()), None);
    hm.insert("a".to_string(), 1);
    assert!(hm.get_ht(&"a".to_string()).is_some());
    hm.insert("b".to_string(), 2);
    hm.insert("c".to_string(), 3);
    hm.insert("d".to_string(), 4);
    hm.insert("e".to_string(), 5);
    assert_eq!(hm.len(), 5);
    // A routed index of four or more can only come from a bucket array that
    // has grown past the minimum of four: the resize did occur.
    assert!(hm.get_ht(&"c".to_string()).unwrap() >= 4);
    assert_eq!(hm.get(&"a".to_string()), Some(&1));
    assert_eq!(hm.get(&"b".to_string()), Some(&2));
    assert_eq!(hm.get(&"c".to_string()), Some(&3));
    assert_eq!(hm.get(&"d".to_string()), Some(&4));
    assert_eq!(hm.get(&"e".to_string()), Some(&5));
}

#[test]
fn remove_and_reinsert() {
    let mut hm = HashMap::new();
    hm.insert("x".to_string(), 1);
    assert_eq!(hm.remove(&"x".to_string()), Some(1));
    assert_eq!(hm.get(&"x".to_string()), None);
    assert_eq!(hm.len(), 0);
    hm.insert("x".to_string(), 2);
    assert_eq!(hm.get(&"x".to_string()), Some(&2));
    assert_eq!(hm.len(), 1);
}

#[test]
fn absent_keys_on_empty_and_filled() {
    let mut hm: HashMap<u64, u64> = HashMap::new();
    assert_eq!(hm.get(&10), None);
    assert!(!hm.contains_key(&10));
    assert_eq!(hm.remove(&10), None);
    assert_eq!(hm.len(), 0);
    hm.insert(1, 100);
    hm.insert(2, 200);
    assert_eq!(hm.get(&10), None);
    assert!(!hm.contains_key(&10));
    assert_eq!(hm.remove(&10), None);
    assert_eq!(hm.len(), 2);
}

#[test]
fn overwrite_keeps_len() {
    let mut hm: HashMap<u64, u64> = HashMap::new();
    assert_eq!(hm.insert(7, 1), None);
    assert_eq!(hm.len(), 1);
    assert_eq!(hm.insert(7, 2), Some(1));
    assert_eq!(hm.len(), 1);
    assert_eq!(hm.get(&7), Some(&2));
}

#[test]
fn negative_integer_keys() {
    let mut hm = HashMap::new();
    hm.insert(-3, 30);
    hm.insert(3, 31);
    hm.insert(-2147483648, 32);
    assert_eq!(hm.get(&-3), Some(&30));
    assert_eq!(hm.get(&3), Some(&31));
    assert_eq!(hm.get(&-2147483648), Some(&32));
    assert_eq!(hm.len(), 3);
    assert_eq!(hm.remove(&-3), Some(30));
    assert_eq!(hm.get(&-3), None);
    assert_eq!(hm.get(&3), Some(&31));
}

#[test]
fn iteration_yields_each_live_entry_once() {
    // Twenty keys force several grows and collisions; both iteration modes
    // must yield exactly the live entries, each key once.
    let mut hm: HashMap<u64, u64> = HashMap::new();
    let mut k: u64 = 0;
    while k < 20 {
        hm.insert(k, k * k);
        k += 1;
    }
    assert_eq!(hm.remove(&7), Some(49));
    assert_eq!(hm.len(), 19);

    let mut seen = [false; 20];
    let mut yielded = 0;
    let mut it = hm.iter();
    while let Some((key, value)) = it.next() {
        assert_eq!(*value, key * key);
        assert!(!seen[*key as usize]);
        seen[*key as usize] = true;
        yielded += 1;
    }
    assert_eq!(yielded, 19);
    assert!(!seen[7]);

    let mut seen = [false; 20];
    let mut yielded = 0;
    let mut it = hm.into_iter();
    while let Some((key, value)) = it.next() {
        assert_eq!(value, key * key);
        assert!(!seen[key as usize]);
        seen[key as usize] = true;
        yielded += 1;
    }
    assert_eq!(yielded, 19);
    assert!(!seen[7]);
}

#[test]
fn iteration_over_empty_map() {
    let hm: HashMap<u64, u64> = HashMap::new();
    let mut it = hm.iter();
    assert!(it.next().is_none());
    let hm: HashMap<u64, u64> = HashMap::new();
    let mut it = hm.into_iter();
    assert!(it.next().is_none());
}

