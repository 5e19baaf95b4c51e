use exercises::algorithm::extra_long_factorials::{extra_long_factorials, multiply};
use exercises::algorithm::game_of_thrones_i::{count_symbol, game_of_thrones};
use exercises::algorithm::string_construction::string_construction;
use exercises::algorithm::text::{letter_index, presence};
use exercises::algorithm::two_strings::two_strings;
use exercises::template::solution;

#[test]
fn extra_long_factorials_01() {
    let result = extra_long_factorials(25);
    assert_eq!(result, "15511210043330985984000000");
}

#[test]
fn extra_long_factorials_02() {
    let result = extra_long_factorials(45);
    assert_eq!(
        result,
        "119622220865480194561963161495657715064383733760000000000"
    );
}

#[test]
fn small_factorials() {
    assert_eq!(extra_long_factorials(1), "1");
    assert_eq!(extra_long_factorials(2), "2");
    assert_eq!(extra_long_factorials(3), "6");
    assert_eq!(extra_long_factorials(5), "120");
    assert_eq!(extra_long_factorials(10), "3628800");
    assert_eq!(extra_long_factorials(20), "2432902008176640000");
}

#[test]
fn factorial_of_zero_and_of_negative_numbers() {
    assert_eq!(extra_long_factorials(0), "0");
    assert_eq!(extra_long_factorials(-1), "1");
    assert_eq!(extra_long_factorials(i32::MIN), "1");
}

#[test]
fn multiply_carries_into_new_digits() {
    let mut digits = vec![9, 9];
    multiply(&mut digits, 99);
    assert_eq!(digits, vec![1, 0, 8, 9]);
    multiply(&mut digits, 1);
    assert_eq!(digits, vec![1, 0, 8, 9]);
    let mut one = vec![1];
    multiply(&mut one, u32::MAX);
    assert_eq!(one, vec![5, 9, 2, 7, 6, 9, 4, 9, 2, 4]);
}

#[test]
fn game_of_thrones_01() {
    let result = game_of_thrones("aaabbbb");
    assert_eq!(result, "YES")
}

#[test]
fn game_of_thrones_02() {
    let result = game_of_thrones("cdefghmnopqrstuvw");
    assert_eq!(result, "NO")
}

#[test]
fn game_of_thrones_03() {
    let result = game_of_thrones("cdcdcdcdeeeef");
    assert_eq!(result, "YES")
}

#[test]
fn palindromes_of_short_texts() {
    assert_eq!(game_of_thrones(""), "YES");
    assert_eq!(game_of_thrones("a"), "YES");
    assert_eq!(game_of_thrones("ab"), "NO");
    assert_eq!(game_of_thrones("aab"), "YES");
    assert_eq!(game_of_thrones("abab"), "YES");
    assert_eq!(game_of_thrones("abc"), "NO");
    assert_eq!(game_of_thrones(" 0 "), "YES");
    assert_eq!(game_of_thrones("ééa"), "YES");
    let chars: Vec<char> = "abracadabra".chars().collect();
    assert_eq!(count_symbol(&chars, 'a'), 5);
    assert_eq!(count_symbol(&chars, 'r'), 2);
    assert_eq!(count_symbol(&chars, 'z'), 0);
}

#[test]
fn test_string_construction_01() {
    let result = string_construction("abcd");
    assert_eq!(result, 4);
}

#[test]
fn test_string_construction_02() {
    let result = string_construction("abab");
    assert_eq!(result, 2);
}

#[test]
fn string_construction_counts_distinct_letters() {
    assert_eq!(string_construction(""), 0);
    assert_eq!(string_construction("zzzz"), 1);
    assert_eq!(string_construction("abcdefghijklmnopqrstuvwxyz"), 26);
    assert_eq!(string_construction("thequickbrownfoxjumpsoverthelazydog"), 26);
    assert_eq!(string_construction("mississippi"), 4);
}

#[test]
fn test_two_strings_01() {
    let result = two_strings("hello", "world");
    assert_eq!(result, "YES");
}

#[test]
fn test_two_strings_02() {
    let result = two_strings("hi", "world");
    assert_eq!(result, "NO");
}

#[test]
fn two_strings_look_at_lower_case_letters_only() {
    assert_eq!(two_strings("", ""), "NO");
    assert_eq!(two_strings("a", ""), "NO");
    assert_eq!(two_strings("A1 ", "A1 "), "NO");
    assert_eq!(two_strings("Az", "zA"), "YES");
    assert_eq!(two_strings("abc", "xyzc"), "YES");
}

#[test]
fn letters_of_the_alphabet() {
    assert_eq!(letter_index('a'), Some(0));
    assert_eq!(letter_index('z'), Some(25));
    assert_eq!(letter_index('`'), None);
    assert_eq!(letter_index('{'), None);
    assert_eq!(letter_index('A'), None);
    assert_eq!(letter_index('é'), None);
    let seen = presence("a cab!");
    assert_eq!(seen.len(), 26);
    assert_eq!(&seen[..4], &[true, true, true, false]);
    assert!(seen[4..].iter().all(|s| !s));
}

#[test]
fn test_solution_01() {
    let result = solution("a", "b");
    assert_eq!(result, "OK");
}

#[test]
fn test_solution_02() {
    let result = solution("a", "b");
    assert_eq!(result, "OK");
}

#[test]
fn test_solution_03() {
    let result = solution("a", "b");
    assert_eq!(result, "OK");
}
