use rust_dictionary::permute::PermuteCombo;

#[test]
fn permute_three_letters_in_search_order() {
    let p = PermuteCombo::new("abc".to_string());
    let r = p.permute();
    let expected = vec![
        "", "a", "ab", "abc", "ac", "acb", "b", "ba", "bac", "bc", "bca", "c", "ca", "cab", "cb", "cba",
    ];
    assert_eq!(r, expected);
}

#[test]
fn permute_empty_combination_gives_empty_arrangement() {
    let p = PermuteCombo::new(String::new());
    assert_eq!(p.permute(), vec![String::new()]);
}

#[test]
fn permute_count_follows_arrangement_count() {
    // 1 + 4 * (1 + 3 * (1 + 2 * (1 + 1 * 1))) = 65
    let p = PermuteCombo::new("abcd".to_string());
    assert_eq!(p.permute().len(), 65);
}

#[test]
fn permute_repeated_letters_repeat_results() {
    let p = PermuteCombo::new("aa".to_string());
    assert_eq!(p.permute(), vec!["", "a", "aa", "a", "aa"]);
}

#[test]
fn permute_results_are_arrangements_of_the_letters() {
    let combo = "ñáb";
    let p = PermuteCombo::new(combo.to_string());
    for s in p.permute() {
        let mut left: Vec<char> = combo.chars().collect();
        for c in s.chars() {
            let pos = left.iter().position(|x| *x == c).expect("letter of the combination");
            left.remove(pos);
        }
    }
}

#[test]
fn permute_of_increasing_letters_is_sorted() {
    let p = rust_dictionary::permute::PermuteCombo::new("abc".to_string());
    let r = p.permute();
    assert_eq!(r.len(), 16);
    for i in 1..r.len() {
        assert!(r[i - 1] < r[i]);
    }
}
