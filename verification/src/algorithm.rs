pub mod aho_corasick;
pub mod decimal;
pub mod dna_health;
pub mod extra_long_factorials;
pub mod forming_magic_square;
pub mod game_of_thrones_i;
pub mod insertion_sort_analysis;
pub mod making_anagram;
pub mod matrix_rotation;
pub mod maximum_palindromes;
pub mod naive;
pub mod occurrence;
pub mod queens_attack_ii;
pub mod sherlock_and_the_valid_string;
pub mod spiral_data;
pub mod state_table;
pub mod string_construction;
pub mod text;
pub mod two_strings;
