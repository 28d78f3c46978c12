use scrabby::computer::{can_create_word, get_createable_words};

#[test]
fn rack_cat_forms_cat_and_at_but_not_cats() {
    let rack = [b'C', b'A', b'T'];
    assert!(can_create_word(&rack, "CAT"));
    assert!(can_create_word(&rack, "AT"));
    assert!(!can_create_word(&rack, "CATS"));
}

#[test]
fn wildcard_covers_missing_letter() {
    let rack = [b'C', b'A', b' '];
    assert!(can_create_word(&rack, "CAT"));
    assert!(can_create_word(&rack, "CAB"));
    assert!(!can_create_word(&rack, "CABS"));
}

#[test]
fn wildcard_is_last_resort() {
    // One A and one blank cover a double letter.
    let rack = [b'A', b' '];
    assert!(can_create_word(&rack, "AA"));
    assert!(!can_create_word(&rack, "AAA"));
}

#[test]
fn empty_word_always_forms_and_empty_rack_forms_nothing_else() {
    let rack: [u8; 0] = [];
    assert!(can_create_word(&rack, ""));
    assert!(!can_create_word(&rack, "A"));
}

#[test]
fn repeated_letters_need_repeated_tiles() {
    let rack = [b'O', b'T', b'T'];
    assert!(can_create_word(&rack, "TOT"));
    assert!(!can_create_word(&rack, "TOOT"));
}

#[test]
fn rack_is_not_mutated_and_order_of_calls_is_irrelevant() {
    let rack = vec![b'C', b'A', b'T'];
    let snapshot = rack.clone();
    let first_cat = can_create_word(&rack, "CAT");
    let first_dog = can_create_word(&rack, "DOG");
    // Reversed call order on the same rack gives the same pair.
    let second_dog = can_create_word(&rack, "DOG");
    let second_cat = can_create_word(&rack, "CAT");
    assert_eq!(first_cat, second_cat);
    assert_eq!(first_dog, second_dog);
    assert!(first_cat);
    assert!(!first_dog);
    assert_eq!(rack, snapshot);
}

#[test]
fn createable_words_filters_dictionary_in_order() {
    let dictionary = vec![
        String::from("AT"),
        String::from("CATS"),
        String::from("CAT"),
        String::from("DOG"),
        String::from("TACT"),
    ];
    let rack = [b'C', b'A', b'T'];
    let found = get_createable_words(&rack, &dictionary);
    assert_eq!(found, vec![String::from("AT"), String::from("CAT")]);
}

#[test]
fn createable_words_with_wildcard() {
    let dictionary = vec![String::from("CAB"), String::from("CAT"), String::from("BABA")];
    let rack = [b'C', b'A', b' '];
    let found = get_createable_words(&rack, &dictionary);
    assert_eq!(found, vec![String::from("CAB"), String::from("CAT")]);
}
