use exercises::algorithm::forming_magic_square::forming_magic_square;
use exercises::algorithm::making_anagram::making_anagrams;
use exercises::algorithm::maximum_palindromes::{mod_inverse, mod_pow, PalindromeCounter, MOD};
use exercises::algorithm::queens_attack_ii::queens_attack;
use exercises::algorithm::sherlock_and_the_valid_string::valid_string;

#[test]
fn test_basic_no_obstacles() {
    let result = queens_attack(
        100,
        100,
        48,
        81,
        &[
            vec![54, 87],
            vec![64, 97],
            vec![42, 75],
            vec![32, 65],
            vec![42, 87],
            vec![32, 97],
            vec![54, 75],
            vec![64, 65],
            vec![48, 87],
            vec![48, 75],
            vec![54, 81],
            vec![42, 81],
            vec![45, 17],
            vec![14, 24],
            vec![35, 15],
            vec![95, 64],
            vec![63, 87],
            vec![25, 72],
            vec![71, 38],
            vec![96, 97],
            vec![16, 30],
            vec![60, 34],
            vec![31, 67],
            vec![26, 82],
            vec![20, 93],
            vec![81, 38],
            vec![51, 94],
            vec![75, 41],
            vec![79, 84],
            vec![79, 65],
            vec![76, 80],
            vec![52, 87],
            vec![81, 54],
            vec![89, 52],
            vec![20, 31],
            vec![10, 41],
            vec![32, 73],
            vec![83, 98],
            vec![87, 61],
            vec![82, 52],
            vec![80, 64],
            vec![82, 46],
            vec![49, 21],
            vec![73, 86],
            vec![37, 70],
            vec![43, 12],
            vec![94, 28],
            vec![10, 93],
            vec![52, 25],
            vec![50, 61],
            vec![52, 68],
            vec![52, 23],
            vec![60, 91],
            vec![79, 17],
            vec![93, 82],
            vec![12, 18],
            vec![75, 64],
            vec![69, 69],
            vec![94, 74],
            vec![61, 61],
            vec![46, 57],
            vec![67, 45],
            vec![96, 64],
            vec![83, 89],
            vec![58, 87],
            vec![76, 53],
            vec![79, 21],
            vec![94, 70],
            vec![16, 10],
            vec![50, 82],
            vec![92, 20],
            vec![40, 51],
            vec![49, 28],
            vec![51, 82],
            vec![35, 16],
            vec![15, 86],
            vec![78, 89],
            vec![41, 98],
            vec![70, 46],
            vec![79, 79],
            vec![24, 40],
            vec![91, 13],
            vec![59, 73],
            vec![35, 32],
            vec![40, 31],
            vec![14, 31],
            vec![71, 35],
            vec![96, 18],
            vec![27, 39],
            vec![28, 38],
            vec![41, 36],
            vec![31, 63],
            vec![52, 48],
            vec![81, 25],
            vec![49, 90],
            vec![32, 65],
            vec![25, 45],
            vec![63, 94],
            vec![89, 50],
            vec![43, 41],
        ],
    );

    assert_eq!(result, 40);
}

#[test]
fn valid_string_01() {
    let result = valid_string("aabbcd");
    assert_eq!(result, "NO");
}

#[test]
fn valid_string_02() {
    let result = valid_string("aabbccddeefghi");
    assert_eq!(result, "NO");
}

#[test]
fn valid_string_03() {
    let result = valid_string("abcdefghhgfedecba");
    assert_eq!(result, "YES");
}

#[test]
fn valid_string_04() {
    let result = valid_string("aaaabbcc");
    assert_eq!(result, "NO");
}

#[test]
fn valid_string_05() {
    let result = valid_string(
        "ibfdgaeadiaefgbhbdghhhbgdfgeiccbiehhfcggchgghadhdhagfbahhddgghbdehidbibaeaagaeeigffcebfbaieggabcfbiiedcabfihchdfabifahcbhagccbdfifhghcadfiadeeaheeddddiecaicbgigccageicehfdhdgafaddhffadigfhhcaedcedecafeacbdacgfgfeeibgaiffdehigebhhehiaahfidibccdcdagifgaihacihadecgifihbebffebdfbchbgigeccahgihbcbcaggebaaafgfedbfgagfediddghdgbgehhhifhgcedechahidcbchebheihaadbbbiaiccededchdagfhccfdefigfibifabeiaccghcegfbcghaefifbachebaacbhbfgfddeceababbacgffbagidebeadfihaefefegbghgddbbgddeehgfbhafbccidebgehifafgbghafacgfdccgifdcbbbidfifhdaibgigebigaedeaaiadegfefbhacgddhchgcbgcaeaieiegiffchbgbebgbehbbfcebciiagacaiechdigbgbghefcahgbhfibhedaeeiffebdiabcifgccdefabccdghehfibfiifdaicfedagahhdcbhbicdgibgcedieihcichadgchgbdcdagaihebbabhibcihicadgadfcihdheefbhffiageddhgahaidfdhhdbgciiaciegchiiebfbcbhaeagccfhbfhaddagnfieihghfbaggiffbbfbecgaiiidccdceadbbdfgigibgcgchafccdchgifdeieicbaididhfcfdedbhaadedfageigfdehgcdaecaebebebfcieaecfagfdieaefdiedbcadchabhebgehiidfcgahcdhcdhgchhiiheffiifeegcfdgbdeffhgeghdfhbfbifgidcafbfcd",
    );
    assert_eq!(result, "YES");
}

#[test]
fn queen_on_an_open_board() {
    assert_eq!(queens_attack(4, 0, 4, 4, &[]), 9);
    assert_eq!(queens_attack(8, 0, 4, 4, &[]), 27);
    assert_eq!(queens_attack(1, 0, 1, 1, &[]), 0);
    assert_eq!(queens_attack(0, 0, 1, 1, &[vec![1, 1]]), 0);
    assert_eq!(queens_attack(2, 0, 1, 1, &[]), 3);
}

#[test]
fn obstacles_cut_the_queens_lines() {
    // board of 5, queen at (4, 3), obstacles at (5, 5), (4, 2), (2, 3)
    assert_eq!(queens_attack(5, 3, 4, 3, &[vec![5, 5], vec![4, 2], vec![2, 3]]), 10);
    // an obstacle next to the queen in every direction
    let ring = [
        vec![5, 4],
        vec![5, 5],
        vec![4, 5],
        vec![3, 5],
        vec![3, 4],
        vec![3, 3],
        vec![4, 3],
        vec![5, 3],
    ];
    assert_eq!(queens_attack(8, 8, 4, 4, &ring), 0);
    // obstacles off the queen's lines, beyond the board, or further than a nearer one
    assert_eq!(
        queens_attack(8, 5, 4, 4, &[vec![6, 5], vec![4, 9], vec![4, 7], vec![4, 6], vec![1, 2]]),
        27 - 3
    );
}

#[test]
fn test_making_anagrams_01() {
    let result = making_anagrams("cde", "abc");
    assert_eq!(result, 4);
}

#[test]
fn making_anagrams_counts_letters_only() {
    assert_eq!(making_anagrams("", ""), 0);
    assert_eq!(making_anagrams("abc", "abc"), 0);
    assert_eq!(making_anagrams("abc", "cab"), 0);
    assert_eq!(making_anagrams("aaa", ""), 3);
    assert_eq!(making_anagrams("aab", "abb"), 2);
    assert_eq!(making_anagrams("a-b", "A b"), 1);
    assert_eq!(
        making_anagrams("fcrxzwscanmligyxyvym", "jxwtrhvujlmrpdoqbisbwhmgpmeoke"),
        30
    );
}

#[test]
fn magic_square_costs() {
    assert_eq!(forming_magic_square(&[vec![4, 9, 2], vec![3, 5, 7], vec![8, 1, 5]]), 1);
    assert_eq!(forming_magic_square(&[vec![4, 8, 2], vec![4, 5, 7], vec![6, 1, 6]]), 4);
    assert_eq!(forming_magic_square(&[vec![5, 3, 4], vec![1, 5, 8], vec![6, 4, 2]]), 7);
    assert_eq!(forming_magic_square(&[vec![8, 1, 6], vec![3, 5, 7], vec![4, 9, 2]]), 0);
    assert_eq!(forming_magic_square(&[vec![2, 7, 6, 0], vec![9, 5, 1], vec![4, 3, 8], vec![]]), 0);
    assert_eq!(forming_magic_square(&[vec![0, 0, 0], vec![0, 0, 0], vec![0, 0, 0]]), 45);
    assert_eq!(
        forming_magic_square(&[vec![i32::MAX; 3], vec![i32::MIN; 3], vec![0, 0, 0]]),
        i32::MAX
    );
}

#[test]
fn valid_strings_by_frequency() {
    assert_eq!(valid_string(""), "YES");
    assert_eq!(valid_string("a"), "YES");
    assert_eq!(valid_string("abc"), "YES");
    assert_eq!(valid_string("aabbcc"), "YES");
    assert_eq!(valid_string("aabbccc"), "YES");
    assert_eq!(valid_string("aabbc"), "YES");
    assert_eq!(valid_string("aabbcccc"), "NO");
    assert_eq!(valid_string("abcc"), "YES");
    assert_eq!(valid_string("aabbccddd e"), "NO");
    // one symbol less often than the others, by one: the rule takes it as standing out
    assert_eq!(valid_string("aaabbbcc"), "YES");
    assert_eq!(valid_string("aaaabbbbcc"), "NO");
}

#[test]
fn modular_powers() {
    assert_eq!(mod_pow(2, 10, 1000), 24);
    assert_eq!(mod_pow(3, 0, 7), 1);
    assert_eq!(mod_pow(3, 0, 1), 1);
    assert_eq!(mod_pow(3, 5, 1), 0);
    assert_eq!(mod_pow(5, -3, 7), 1);
    assert_eq!(mod_pow(0, 5, 7), 0);
    assert_eq!(mod_pow(10, 1, 7), 3);
    assert_eq!(mod_pow(7, 2, 3_037_000_499), 49);
    assert_eq!(mod_pow(3_037_000_498, 2, 3_037_000_499), 1);
    assert_eq!(mod_pow(3_037_000_499, 2, 3_037_000_500), 1);
    assert_eq!(mod_pow(2, 62, 3_037_000_500), 4_611_686_018_427_387_904 % 3_037_000_500);
    assert_eq!(mod_pow(2, 1_000_000_006, MOD), 1);
    assert_eq!(mod_inverse(3, 7), 5);
    assert_eq!(mod_inverse(2, MOD), 500_000_004);
    for a in 1..200 {
        assert_eq!(a * mod_inverse(a, MOD) % MOD, 1);
    }
}

#[test]
fn palindromes_of_ranges() {
    let week = PalindromeCounter::initialize("week");
    assert_eq!(week.answerQuery(1, 4), 2);
    assert_eq!(week.answerQuery(2, 3), 1);
    assert_eq!(week.answerQuery(1, 1), 1);
    assert_eq!(week.answerQuery(3, 2), 0);
    let abab = PalindromeCounter::initialize("abab");
    assert_eq!(abab.answerQuery(1, 4), 2);
    let madam = PalindromeCounter::initialize("madamimadam");
    assert_eq!(madam.answerQuery(4, 7), 2);
    // pairs a, a, b, b, c and one of d, e in the middle: 5! / (2! 2! 1!) * 2
    let mixed = PalindromeCounter::initialize("aaaabbbbccde");
    assert_eq!(mixed.answerQuery(1, 12), 60);
    assert_eq!(mixed.answerQuery(1, 8), 6);
    assert_eq!(mixed.answerQuery(9, 12), 2);
    let none = PalindromeCounter::initialize("");
    assert_eq!(none.answerQuery(1, 0), 0);
}

#[test]
fn palindromes_of_a_long_range_are_counted_modulo_the_prime() {
    let text: String = (0..60_000).map(|i| (b'a' + (i / 2 % 26) as u8) as char).collect();
    let counter = PalindromeCounter::initialize(&text);
    let all = counter.answerQuery(1, 60_000);
    assert!(0 <= all && (all as i64) < MOD);
    // one letter only: a single arrangement
    let same = PalindromeCounter::initialize(&"z".repeat(1001));
    assert_eq!(same.answerQuery(1, 1001), 1);
    assert_eq!(same.answerQuery(5, 1000), 1);
}
