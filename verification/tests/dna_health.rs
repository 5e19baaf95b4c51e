use exercises::algorithm::aho_corasick::{aggregate, build, AhoCorasick, DnaError};
use exercises::algorithm::dna_health::{
    dna_health, format_report, min_max, run, run_queries, validate,
};
use exercises::algorithm::naive::{dna_health_naive, occurs, scan};
use exercises::algorithm::text::chars_of;
use std::time::Instant;

fn strings(items: &[&str]) -> Vec<String> {
    items.iter().map(|s| s.to_string()).collect()
}

fn linked(items: &[(&str, i64)]) -> AhoCorasick {
    let patterns: Vec<(String, i64)> = items.iter().map(|(s, w)| (s.to_string(), *w)).collect();
    build(&patterns).unwrap()
}

#[test]
fn test_dna_health() {
    let result = dna_health(
        vec![
            "ogwwsenipa".to_string(),
            "obsehkjfcj".to_string(),
            "dhqvptquuu".to_string(),
            "kkdgivnvfc".to_string(),
            "ytdqxmciue".to_string(),
            "rznhvdcnxw".to_string(),
            "kihnqpkdnp".to_string(),
            "hlimdfbfnv".to_string(),
            "mguznrcpfc".to_string(),
            "nrmweeookb".to_string(),
            "drolersfwh".to_string(),
            "ckpykeqotx".to_string(),
            "sioefulviv".to_string(),
            "wnmkasbuzz".to_string(),
            "ddkscwwukr".to_string(),
            "rfzhjgbwbl".to_string(),
            "rzagjaymua".to_string(),
            "mxdyrhunbg".to_string(),
            "eulfdxogtr".to_string(),
            "rnrrtctrpp".to_string(),
            "tdmzbfgxsi".to_string(),
            "fyereiquol".to_string(),
            "liyebrhvly".to_string(),
            "kgbzfeembz".to_string(),
            "wgxazdirzx".to_string(),
            "flfdrgxydi".to_string(),
            "woqzpwdvkg".to_string(),
            "ugpuiqxrix".to_string(),
            "qnkxsbfpcj".to_string(),
            "zazqaqmdly".to_string(),
            "mgebaorzfz".to_string(),
            "yxoiuhmayo".to_string(),
            "lyqkoqacwn".to_string(),
            "aivgjxucxc".to_string(),
            "cxzsgwbuya".to_string(),
            "klyavotxsp".to_string(),
            "muzickfwmc".to_string(),
            "aqccjiakey".to_string(),
            "mojmqgajfu".to_string(),
            "yrozzqjfpw".to_string(),
            "jrmltxvtkz".to_string(),
            "twpejgmlpr".to_string(),
            "gqlwpknbre".to_string(),
            "xdvlqplmkv".to_string(),
            "ngtfmelzsc".to_string(),
            "qyudukojnh".to_string(),
            "nkmjxdairm".to_string(),
            "fgublhhygz".to_string(),
            "byxvcuhsdu".to_string(),
            "btgocgreqk".to_string(),
            "syqnzeuicc".to_string(),
            "ifahdebmwh".to_string(),
            "jaapoexhio".to_string(),
            "rcmjpnnlxq".to_string(),
            "nfvonauqnt".to_string(),
            "xwtznjdlqn".to_string(),
            "bjqnshcgtz".to_string(),
            "yghvwuwrml".to_string(),
            "kmhdlumrhe".to_string(),
            "einwxhebpx".to_string(),
            "bnfilcejts".to_string(),
            "ufebiqxwjh".to_string(),
            "cnprmnysoq".to_string(),
            "rrfwbqahzv".to_string(),
            "atagwkwwif".to_string(),
            "dkvsbjhcby".to_string(),
            "surxqvqter".to_string(),
            "oenpljzjhi".to_string(),
            "rkuofwxoaa".to_string(),
            "osugrmdjfh".to_string(),
            "bwoolbzmkh".to_string(),
            "wdtrrypqpp".to_string(),
            "qdjmlcbomi".to_string(),
            "wpekdpleex".to_string(),
            "nabhtuhinw".to_string(),
            "zfcksnntcb".to_string(),
            "dyqiktzxzd".to_string(),
            "ungxuzubkh".to_string(),
            "almcwgrlbt".to_string(),
            "mftcndxoaw".to_string(),
            "sxjawdzshl".to_string(),
            "zjxonvwegy".to_string(),
            "ysfruuxtiz".to_string(),
            "payzavecpn".to_string(),
            "ppwofjjbop".to_string(),
            "bojghfaeyj".to_string(),
            "golgpodtst".to_string(),
            "hhifwprhqf".to_string(),
            "xuvgacodjm".to_string(),
            "orcbxrpbnj".to_string(),
            "uwtebrtsyl".to_string(),
            "zxfugizuli".to_string(),
            "gzzjawcszp".to_string(),
            "btnwxrnqlm".to_string(),
            "enljjrrile".to_string(),
            "ssdtdgsfar".to_string(),
            "xdlmaidpbp".to_string(),
            "dhepqngkws".to_string(),
            "oomuipccwc".to_string(),
            "ttfeihplxs".to_string(),
        ],
        vec![
            4462805, 1916916, 2870812, 3407597, 5169525, 4087301, 4005965, 1803633, 3357388,
            1112112, 5656776, 4438527, 3841975, 4102090, 2113339, 2977711, 1709727, 1666821,
            4167887, 3742911, 1948785, 3057238, 1940358, 4574138, 4598641, 2922682, 1839758,
            4562812, 1508583, 2531144, 3192788, 4971388, 3448060, 2579952, 4895338, 5133938,
            5667253, 5417655, 3453923, 3024642, 5529768, 3110699, 3979521, 5888095, 3729142,
            2609212, 2865806, 1955221, 3276034, 3550045, 4698132, 1741171, 5607283, 5638490,
            2831662, 1722277, 2561172, 3671420, 5285089, 5586108, 5202564, 4994229, 2073848,
            5166977, 1574181, 5969186, 1817267, 1241435, 2903194, 1787542, 5782429, 4949314,
            1414593, 1278302, 4837409, 4143735, 2887514, 4219567, 5098956, 2679900, 1769612,
            1313440, 5937424, 3893247, 3468283, 2769086, 2131876, 5029455, 2956858, 3933318,
            2131915, 4675774, 2927547, 3205764, 1359103, 1018081, 5691302, 2176370, 3775868,
            2594496,
        ],
        vec![
            (7, 93, "zjxonvwegyeulfdxogtr".to_string()),
            (0, 77, "dkvsbjhcbyrzagjaymua".to_string()),
            (13, 90, "ddkscwwukrrfzhjgbwbl".to_string()),
            (9, 85, "xdvlqplmkvwgxazdirzx".to_string()),
            (7, 77, "jaapoexhiofgublhhygz".to_string()),
            (10, 77, "yghvwuwrmlbjqnshcgtz".to_string()),
            (19, 91, "ifahdebmwhxdvlqplmkv".to_string()),
            (6, 84, "jrmltxvtkzwgxazdirzx".to_string()),
            (12, 85, "oenpljzjhirkuofwxoaa".to_string()),
            (11, 90, "atagwkwwifmxdyrhunbg".to_string()),
            (12, 70, "dkvsbjhcbyfyereiquol".to_string()),
            (3, 87, "drolersfwhxwtznjdlqn".to_string()),
            (6, 80, "wnmkasbuzzrcmjpnnlxq".to_string()),
            (14, 75, "qnkxsbfpcjyxoiuhmayo".to_string()),
            (8, 77, "aivgjxucxczfcksnntcb".to_string()),
            (16, 89, "aivgjxucxcppwofjjbop".to_string()),
            (8, 71, "bjqnshcgtzugpuiqxrix".to_string()),
            (8, 90, "ppwofjjbopalmcwgrlbt".to_string()),
            (2, 80, "woqzpwdvkggqlwpknbre".to_string()),
            (4, 91, "kihnqpkdnpddkscwwukr".to_string()),
            (0, 92, "yrozzqjfpwdyqiktzxzd".to_string()),
            (14, 77, "xwtznjdlqneinwxhebpx".to_string()),
            (8, 80, "aivgjxucxcckpykeqotx".to_string()),
            (19, 81, "zjxonvwegyliyebrhvly".to_string()),
            (0, 81, "flfdrgxydinrmweeookb".to_string()),
            (8, 87, "xwtznjdlqngolgpodtst".to_string()),
            (2, 89, "ugpuiqxrixwpekdpleex".to_string()),
            (14, 75, "rnrrtctrppcxzsgwbuya".to_string()),
            (9, 69, "ddkscwwukrkmhdlumrhe".to_string()),
            (0, 86, "mftcndxoawnkmjxdairm".to_string()),
            (11, 75, "liyebrhvlyaivgjxucxc".to_string()),
            (3, 83, "einwxhebpxzjxonvwegy".to_string()),
            (18, 73, "qdjmlcbomidkvsbjhcby".to_string()),
            (9, 78, "nkmjxdairmwdtrrypqpp".to_string()),
            (10, 92, "rfzhjgbwblbojghfaeyj".to_string()),
            (16, 85, "syqnzeuiccqyudukojnh".to_string()),
            (3, 85, "yxoiuhmayomuzickfwmc".to_string()),
            (11, 85, "byxvcuhsdutwpejgmlpr".to_string()),
            (2, 75, "bnfilcejtsaqccjiakey".to_string()),
            (18, 90, "kgbzfeembzlyqkoqacwn".to_string()),
            (10, 75, "woqzpwdvkgrrfwbqahzv".to_string()),
            (10, 82, "ugpuiqxrixkmhdlumrhe".to_string()),
            (13, 72, "jaapoexhiorzagjaymua".to_string()),
            (4, 76, "jrmltxvtkzjaapoexhio".to_string()),
            (15, 73, "wgxazdirzxqnkxsbfpcj".to_string()),
            (2, 93, "woqzpwdvkgxwtznjdlqn".to_string()),
            (2, 81, "wpekdpleexddkscwwukr".to_string()),
            (14, 86, "fgublhhygzdyqiktzxzd".to_string()),
            (0, 72, "klyavotxsprznhvdcnxw".to_string()),
            (8, 87, "muzickfwmcbtgocgreqk".to_string()),
            (13, 85, "bnfilcejtsjaapoexhio".to_string()),
            (8, 81, "fyereiquoljrmltxvtkz".to_string()),
            (11, 71, "woqzpwdvkgwoqzpwdvkg".to_string()),
            (18, 90, "xdvlqplmkvwpekdpleex".to_string()),
            (11, 93, "zazqaqmdlypayzavecpn".to_string()),
            (3, 75, "ckpykeqotxtwpejgmlpr".to_string()),
            (6, 89, "dkvsbjhcbynabhtuhinw".to_string()),
            (18, 70, "liyebrhvlykmhdlumrhe".to_string()),
            (17, 87, "klyavotxspfyereiquol".to_string()),
            (7, 87, "yrozzqjfpwsioefulviv".to_string()),
            (15, 79, "yghvwuwrmlungxuzubkh".to_string()),
            (17, 71, "lyqkoqacwnyghvwuwrml".to_string()),
            (4, 76, "rkuofwxoaakmhdlumrhe".to_string()),
            (0, 92, "ifahdebmwhatagwkwwif".to_string()),
            (8, 77, "kgbzfeembzmxdyrhunbg".to_string()),
            (6, 92, "byxvcuhsduwnmkasbuzz".to_string()),
            (9, 74, "wdtrrypqppnfvonauqnt".to_string()),
            (18, 89, "nfvonauqntpayzavecpn".to_string()),
            (11, 88, "yxoiuhmayojaapoexhio".to_string()),
            (4, 75, "ddkscwwukrosugrmdjfh".to_string()),
            (18, 92, "wgxazdirzxmgebaorzfz".to_string()),
            (11, 72, "yxoiuhmayobyxvcuhsdu".to_string()),
            (3, 86, "syqnzeuiccdrolersfwh".to_string()),
            (5, 93, "muzickfwmcnfvonauqnt".to_string()),
            (0, 76, "hlimdfbfnvwgxazdirzx".to_string()),
            (13, 86, "aqccjiakeybjqnshcgtz".to_string()),
            (19, 90, "nkmjxdairmxuvgacodjm".to_string()),
            (2, 76, "syqnzeuicccnprmnysoq".to_string()),
            (17, 72, "kgbzfeembzjrmltxvtkz".to_string()),
            (9, 73, "eulfdxogtrliyebrhvly".to_string()),
            (3, 69, "oenpljzjhibyxvcuhsdu".to_string()),
            (19, 76, "ugpuiqxrixzazqaqmdly".to_string()),
            (15, 86, "atagwkwwifbyxvcuhsdu".to_string()),
            (5, 82, "nrmweeookbrkuofwxoaa".to_string()),
            (4, 74, "qdjmlcbomikihnqpkdnp".to_string()),
            (4, 82, "surxqvqterfgublhhygz".to_string()),
            (8, 73, "nkmjxdairmliyebrhvly".to_string()),
            (5, 72, "ckpykeqotxlyqkoqacwn".to_string()),
            (13, 72, "qdjmlcbomirfzhjgbwbl".to_string()),
            (2, 73, "wpekdpleexliyebrhvly".to_string()),
            (12, 90, "nkmjxdairmngtfmelzsc".to_string()),
            (4, 72, "twpejgmlpreulfdxogtr".to_string()),
            (5, 93, "rnrrtctrppzazqaqmdly".to_string()),
            (14, 83, "syqnzeuiccatagwkwwif".to_string()),
            (3, 74, "qdjmlcbomisioefulviv".to_string()),
            (18, 85, "qnkxsbfpcjdkvsbjhcby".to_string()),
            (14, 86, "xwtznjdlqneulfdxogtr".to_string()),
            (1, 93, "ifahdebmwhqnkxsbfpcj".to_string()),
            (5, 79, "ckpykeqotxgqlwpknbre".to_string()),
            (1, 79, "liyebrhvlymojmqgajfu".to_string()),
        ],
    );

    assert_eq!(result, Ok("3218660 11137051".to_string()));
}

#[test]
fn test_dna_health_simple() {
    let result = dna_health(
        vec!["a".to_string(), "aa".to_string(), "aaa".to_string()],
        vec![1, 2, 3],
        vec![(0, 2, "aaaa".to_string())],
    );
    // "aaaa" contains: "a" (4 times), "aa" (3 times), "aaa" (2 times)
    // Total: 4*1 + 3*2 + 2*3 = 4 + 6 + 6 = 16
    assert_eq!(result, Ok("16 16".to_string()));
}

#[test]
fn test_dna_health_no_matches() {
    let result = dna_health(
        vec!["abc".to_string(), "def".to_string()],
        vec![10, 20],
        vec![(0, 1, "xyz".to_string())],
    );
    assert_eq!(result, Ok("0 0".to_string()));
}

#[test]
fn test_dna_health_range_filter() {
    let result = dna_health(
        vec!["a".to_string(), "b".to_string(), "c".to_string()],
        vec![1, 2, 3],
        vec![
            (0, 0, "abc".to_string()), // only gene "a" (health 1)
            (1, 2, "abc".to_string()), // genes "b" and "c" (health 2+3=5)
        ],
    );
    assert_eq!(result, Ok("1 5".to_string()));
}

#[test]
fn test_performance_comparison() {
    // Create a larger test case with many genes and longer DNA strands
    let mut genes = Vec::new();
    let mut health = Vec::new();

    // Generate 50 genes of varying lengths
    for i in 0..50 {
        let gene = format!("gene{:02}", i);
        genes.push(gene);
        health.push((i + 1) * 10);
    }

    // Add some shorter common patterns
    for pattern in ["at", "gc", "ta", "cg", "atg", "gcg", "tag", "cat"] {
        genes.push(pattern.to_string());
        health.push(100);
    }

    // Create long DNA strands with repeating patterns
    let long_dna = "atgcatgcgctagcatgcatgcgctagcatgcatgcgctag".repeat(1000);
    let complex_dna = "gene01gene02gene03atgcgene04gene05tagcatgene06".repeat(500);

    let strands = vec![
        (0, genes.len() as i32 - 1, long_dna),
        (10, 40, complex_dna),
        (0, 20, "atgctagcatgctagc".repeat(2000)),
    ];

    // Test Aho-Corasick implementation
    let start = Instant::now();
    let result_ac = dna_health(genes.clone(), health.clone(), strands.clone());
    let duration_ac = start.elapsed();

    // Test naive implementation
    let start = Instant::now();
    let result_naive = dna_health_naive(genes, health, strands);
    let duration_naive = start.elapsed();

    // Results should be identical
    assert_eq!(result_ac, result_naive);
    assert!(result_ac.is_ok());

    println!("Aho-Corasick: {:?}", duration_ac);
    println!("Naive approach: {:?}", duration_naive);

    if duration_ac.as_nanos() > 0 {
        println!(
            "Performance improvement: {:.2}x",
            duration_naive.as_nanos() as f64 / duration_ac.as_nanos() as f64
        );
    }
}

#[test]
fn test_overlapping_patterns_bug_fix() {
    let result = dna_health(
        vec![
            "he".to_string(),
            "she".to_string(),
            "his".to_string(),
            "hers".to_string(),
        ],
        vec![1, 2, 3, 4],
        vec![(0, 3, "shers".to_string())],
    );
    // "shers" contains: "he" (1 match), "she" (1 match), "hers" (1 match)
    // Total: 1*1 + 1*2 + 1*4 = 1 + 2 + 4 = 7
    assert_eq!(result, Ok("7 7".to_string()));
}

#[test]
fn test_correctness_comparison() {
    let genes = vec![
        "a".to_string(),
        "b".to_string(),
        "c".to_string(),
        "aa".to_string(),
        "bb".to_string(),
        "cc".to_string(),
    ];
    let health = vec![1, 2, 3, 10, 20, 30];
    let strands = vec![
        (0, 5, "abcabc".to_string()),
        (1, 3, "aabbcc".to_string()),
        (0, 2, "aaabbbccc".to_string()),
    ];

    let result_ac = dna_health(genes.clone(), health.clone(), strands.clone());
    let result_naive = dna_health_naive(genes, health, strands);

    assert_eq!(
        result_ac, result_naive,
        "Aho-Corasick and naive implementations should produce identical results"
    );
    // (0,5,"abcabc") = 2*(1+2+3) = 12; (1,3,"aabbcc") = 2*2 + 2*3 + 10 = 20; (0,2,..) = 3+6+9 = 18
    assert_eq!(result_ac, Ok("12 20".to_string()));
}

// ---- scenarios -------------------------------------------------------------

#[test]
fn nested_patterns_all_count() {
    let ac = linked(&[("a", 1), ("aa", 2), ("aaa", 3)]);
    assert_eq!(ac.evaluate(0, 2, "aaaa"), Ok(16));
    assert_eq!(ac.search("aaaa", 0, 2), 16);
}

#[test]
fn text_without_pattern_symbols_sums_to_zero() {
    let ac = linked(&[("abc", 10), ("def", 20)]);
    assert_eq!(ac.evaluate(0, 1, "xyz"), Ok(0));
}

#[test]
fn window_selects_patterns() {
    let ac = linked(&[("a", 1), ("b", 2), ("c", 3)]);
    assert_eq!(ac.evaluate(0, 0, "abc"), Ok(1));
    assert_eq!(ac.evaluate(1, 2, "abc"), Ok(5));
    assert_eq!(ac.evaluate(0, 2, "abc"), Ok(6));
    assert_eq!(ac.evaluate(2, 2, "abc"), Ok(3));
}

#[test]
fn overlap_recovery_through_failure_links() {
    let ac = linked(&[("he", 1), ("she", 2), ("his", 3), ("hers", 4)]);
    assert_eq!(ac.evaluate(0, 3, "shers"), Ok(7));
    assert_eq!(ac.evaluate(0, 0, "shers"), Ok(1));
    assert_eq!(ac.evaluate(1, 1, "shers"), Ok(2));
    assert_eq!(ac.evaluate(2, 2, "shers"), Ok(0));
    assert_eq!(ac.evaluate(3, 3, "shers"), Ok(4));
    assert_eq!(ac.evaluate(0, 3, "ushers and his hishers"), Ok(7 + 3 + 3 + 7));
}

#[test]
fn batch_reduction_reports_min_and_max() {
    assert_eq!(min_max(&vec![5, 2, 9]), (2, 9));
    assert_eq!(format_report(2, 9), "2 9");
    // three queries that sum to 5, 2 and 9
    let result = dna_health(
        strings(&["a", "b"]),
        vec![1, 2],
        vec![
            (0, 1, "aaabb".to_string()),
            (0, 1, "b".to_string()),
            (0, 1, "abbbb".to_string()),
        ],
    );
    assert_eq!(result, Ok("2 9".to_string()));
    let bounds = run(
        &strings(&["a", "b"]),
        &vec![1, 2],
        &vec![
            (0, 1, "aaabb".to_string()),
            (0, 1, "b".to_string()),
            (0, 1, "abbbb".to_string()),
        ],
    );
    assert_eq!(bounds, Ok((2, 9)));
}

// ---- general properties on concrete values ---------------------------------

fn brute(patterns: &[(&str, i64)], text: &str, lo: usize, hi: usize) -> i64 {
    let t: Vec<char> = text.chars().collect();
    let mut sum = 0;
    for (i, (p, w)) in patterns.iter().enumerate() {
        if i < lo || i > hi {
            continue;
        }
        let p: Vec<char> = p.chars().collect();
        for k in 0..t.len() {
            if k + p.len() <= t.len() && t[k..k + p.len()] == p[..] {
                sum += *w;
            }
        }
    }
    sum
}

#[test]
fn full_window_equals_sum_over_all_occurrences() {
    let patterns = [
        ("ab", 3),
        ("abab", -5),
        ("b", 7),
        ("bab", 11),
        ("ab", 13),
        ("ba", -1),
        ("aab", 2),
        ("x", 100),
    ];
    let ac = linked(&patterns);
    for text in ["", "a", "b", "ab", "abab", "ababab", "aabab", "bbbbabababaab", "xabxbax"] {
        let expected = brute(&patterns, text, 0, patterns.len() - 1);
        assert_eq!(ac.evaluate(0, patterns.len() - 1, text), Ok(expected), "text {:?}", text);
        for lo in 0..patterns.len() {
            for hi in lo..patterns.len() {
                assert_eq!(ac.evaluate(lo, hi, text), Ok(brute(&patterns, text, lo, hi)));
            }
        }
    }
    assert_eq!(ac.evaluate(0, 7, "ababab"), Ok(3 * 3 - 5 * 2 + 7 * 3 + 11 * 2 + 13 * 3 - 2));
}

#[test]
fn rebuilding_gives_the_same_answers() {
    let patterns = [("tag", 4), ("ag", 2), ("g", 1), ("tagt", 8)];
    let first = linked(&patterns);
    let second = linked(&patterns);
    for text in ["", "tagtag", "ggtagtt", "tagtagtagt"] {
        for lo in 0..4 {
            for hi in lo..4 {
                assert_eq!(first.evaluate(lo, hi, text), second.evaluate(lo, hi, text));
                assert_eq!(first.evaluate(lo, hi, text), first.evaluate(lo, hi, text));
            }
        }
    }
    assert_eq!(first.evaluate(0, 3, "tagtagtagt"), Ok(3 * 4 + 3 * 2 + 3 * 1 + 3 * 8));
}

#[test]
fn narrowing_the_window_never_adds_with_nonnegative_weights() {
    let patterns = [("a", 1), ("ab", 0), ("b", 5), ("ba", 2), ("aba", 9)];
    let ac = linked(&patterns);
    let text = "abababbaab";
    for lo in 0..5 {
        for hi in lo..5 {
            let wide = ac.evaluate(lo, hi, text).unwrap();
            for inner_lo in lo..=hi {
                for inner_hi in inner_lo..=hi {
                    assert!(ac.evaluate(inner_lo, inner_hi, text).unwrap() <= wide);
                }
            }
        }
    }
}

#[test]
fn narrowing_the_window_may_add_with_a_negative_weight() {
    let ac = linked(&[("a", 1), ("b", -1)]);
    assert_eq!(ac.evaluate(0, 1, "ab"), Ok(0));
    assert_eq!(ac.evaluate(0, 0, "ab"), Ok(1));
}

#[test]
fn empty_text_sums_to_zero() {
    let ac = linked(&[("a", 1), ("bc", 2), ("a", 3)]);
    for lo in 0..3 {
        for hi in lo..3 {
            assert_eq!(ac.evaluate(lo, hi, ""), Ok(0));
        }
    }
    assert_eq!(
        dna_health(strings(&["a", "b"]), vec![4, 5], vec![(0, 1, String::new())]),
        Ok("0 0".to_string())
    );
}

// ---- edge cases and errors ---------------------------------------------------

#[test]
fn duplicate_patterns_stay_distinct() {
    let ac = linked(&[("ab", 1), ("ab", 10), ("ab", 100)]);
    assert_eq!(ac.evaluate(0, 2, "abab"), Ok(222));
    assert_eq!(ac.evaluate(1, 1, "abab"), Ok(20));
    assert_eq!(ac.evaluate(0, 1, "abab"), Ok(22));
    assert_eq!(ac.evaluate(2, 2, "ab"), Ok(100));
}

#[test]
fn symbols_outside_the_patterns_reset_the_match() {
    let ac = linked(&[("abc", 1), ("bcd", 2)]);
    assert_eq!(ac.evaluate(0, 1, "ab cabcdé abc"), Ok(1 + 2 + 1));
    assert_eq!(ac.evaluate(0, 1, "ééé"), Ok(0));
}

#[test]
fn non_ascii_symbols_match_by_character() {
    let ac = linked(&[("é", 2), ("éé", 3), ("日本", 5)]);
    assert_eq!(ac.evaluate(0, 2, "ééé日本日本"), Ok(3 * 2 + 2 * 3 + 2 * 5));
}

#[test]
fn empty_pattern_is_refused_at_construction() {
    let patterns = vec![("a".to_string(), 1), (String::new(), 2)];
    assert_eq!(build(&patterns).err(), Some(DnaError::InvalidPattern));
    let mut ac = AhoCorasick::new();
    assert_eq!(ac.add_pattern("", 0, 5), Err(DnaError::InvalidPattern));
    assert_eq!(ac.add_pattern("a", 0, 5), Ok(()));
    ac.build_failure_links();
    assert_eq!(ac.evaluate(0, 0, "aa"), Ok(10));
    assert_eq!(
        dna_health(strings(&["a", ""]), vec![1, 2], vec![(0, 0, "a".to_string())]),
        Err(DnaError::InvalidPattern)
    );
}

#[test]
fn inverted_or_out_of_bounds_window_is_refused() {
    let ac = linked(&[("a", 1), ("b", 2)]);
    assert_eq!(ac.evaluate(1, 0, "ab"), Err(DnaError::InvalidRange));
    assert_eq!(ac.evaluate(0, 2, "ab"), Err(DnaError::InvalidRange));
    assert_eq!(ac.evaluate(2, 2, "ab"), Err(DnaError::InvalidRange));
    assert_eq!(ac.evaluate(1, 1, "ab"), Ok(2));
    let none = linked(&[]);
    assert_eq!(none.evaluate(0, 0, "ab"), Err(DnaError::InvalidRange));
    let genes = strings(&["a", "b"]);
    let health = vec![1, 2];
    for bad in [(-1, 0), (0, 2), (1, 0), (2, 2), (-2, -1), (0, i32::MAX)] {
        let queries = vec![(0, 1, "ab".to_string()), (bad.0, bad.1, "ab".to_string())];
        assert_eq!(run(&genes, &health, &queries), Err(DnaError::InvalidRange));
        assert_eq!(run_queries(&genes, &health, &queries), Err(DnaError::InvalidRange));
        assert_eq!(validate(&genes, &health, &queries), Err(DnaError::InvalidRange));
        assert_eq!(
            dna_health_naive(genes.clone(), health.clone(), queries.clone()),
            Err(DnaError::InvalidRange)
        );
    }
}

#[test]
fn mismatched_collections_are_refused() {
    let queries = vec![(0, 0, "a".to_string())];
    assert_eq!(run(&strings(&["a", "b"]), &vec![1], &queries), Err(DnaError::MalformedInput));
    assert_eq!(run(&strings(&["a"]), &vec![1, 2], &queries), Err(DnaError::MalformedInput));
    assert_eq!(validate(&strings(&["a"]), &vec![1], &queries), Ok(()));
    // the mismatch is reported before an empty pattern or a bad window
    assert_eq!(
        run(&strings(&[""]), &vec![1, 2], &vec![(5, 1, "a".to_string())]),
        Err(DnaError::MalformedInput)
    );
    // an empty pattern is reported before a bad window
    assert_eq!(
        run(&strings(&[""]), &vec![1], &vec![(5, 1, "a".to_string())]),
        Err(DnaError::InvalidPattern)
    );
}

#[test]
fn no_queries_leave_the_initial_bounds() {
    assert_eq!(run(&strings(&["a"]), &vec![1], &vec![]), Ok((i64::MAX, i64::MIN)));
    assert_eq!(min_max(&vec![]), (i64::MAX, i64::MIN));
    assert_eq!(
        dna_health(strings(&["a"]), vec![1], vec![]),
        Ok("9223372036854775807 -9223372036854775808".to_string())
    );
}

#[test]
fn sums_beyond_32_bits() {
    let text = "a".repeat(100_000);
    let result = run(
        &strings(&["a", "aa"]),
        &vec![10_000_000, -3_000_000],
        &vec![(0, 0, text.clone()), (1, 1, text.clone()), (0, 1, text)],
    );
    assert_eq!(result, Ok((-299_997_000_000, 1_000_000_000_000)));
}

#[test]
fn run_queries_lists_each_sum_in_order() {
    let sums = run_queries(
        &strings(&["a", "b", "c"]),
        &vec![1, 2, 3],
        &vec![
            (0, 2, "cab".to_string()),
            (2, 2, "ccc".to_string()),
            (0, 1, "ccc".to_string()),
        ],
    );
    assert_eq!(sums, Ok(vec![6, 9, 0]));
}

#[test]
fn brute_force_scan_agrees() {
    let genes: Vec<Vec<char>> = ["ab", "b", "abab"].iter().map(|g| chars_of(g)).collect();
    let health = vec![3, 7, -5];
    let text = chars_of("ababab");
    assert_eq!(scan(&genes, &health, &text, 0, 2), 3 * 3 + 7 * 3 - 5 * 2);
    assert_eq!(scan(&genes, &health, &text, 1, 1), 21);
    assert_eq!(chars_of("añb"), vec!['a', 'ñ', 'b']);
    assert!(occurs(&genes[0], &text, 0));
    assert!(!occurs(&genes[0], &text, 1));
    assert!(occurs(&genes[2], &text, 2));
    assert!(!occurs(&genes[2], &text, 3));
    assert!(!occurs(&genes[1], &text, 6));
    assert_eq!(
        dna_health_naive(
            strings(&["he", "she", "his", "hers"]),
            vec![1, 2, 3, 4],
            vec![(0, 3, "shers".to_string())]
        ),
        Ok("7 7".to_string())
    );
}

#[test]
fn patterns_added_one_by_one() {
    let mut ac = AhoCorasick::new();
    assert_eq!(ac.add_pattern("she", 7, 2), Ok(()));
    assert_eq!(ac.add_pattern("he", 3, 1), Ok(()));
    assert_eq!(ac.add_pattern("hers", 9, 4), Ok(()));
    ac.build_failure_links();
    // indices are the ones given, not positions
    assert_eq!(ac.search("shers", 0, 10), 7);
    assert_eq!(ac.search("shers", 3, 3), 1);
    assert_eq!(ac.search("shers", 4, 8), 2);
    assert_eq!(ac.search("shers", 10, 20), 0);
    // more patterns may follow; linking again brings the links up to date
    assert_eq!(ac.add_pattern("s", 0, 100), Ok(()));
    ac.build_failure_links();
    assert_eq!(ac.search("shers", 0, 10), 207);
}

#[test]
fn matches_are_listed_where_they_end_longest_first() {
    let ac = linked(&[("he", 1), ("she", 2), ("his", 3), ("hers", 4), ("e", 5), ("he", 6)]);
    let found = ac.find_matches("shers");
    assert_eq!(
        found,
        vec![
            vec![],
            vec![],
            vec![(1, 2), (0, 1), (5, 6), (4, 5)],
            vec![],
            vec![(3, 4)],
        ]
    );
    assert_eq!(ac.find_matches(""), Vec::<Vec<(usize, i64)>>::new());
    assert_eq!(ac.find_matches("xyz"), vec![vec![], vec![], vec![]]);
}

#[test]
fn aggregating_the_matches_gives_the_query_sum() {
    let patterns = [("ab", 3), ("abab", -5), ("b", 7), ("bab", 11), ("ab", 13), ("ba", -1)];
    let ac = linked(&patterns);
    for text in ["", "abab", "bbabab", "ababbabab"] {
        let found = ac.find_matches(text);
        assert_eq!(found.len(), text.len());
        for lo in 0..patterns.len() {
            for hi in lo..patterns.len() {
                assert_eq!(Ok(aggregate(&found, lo, hi)), ac.evaluate(lo, hi, text));
            }
        }
    }
    let found = vec![vec![(0, 5), (3, -2)], vec![], vec![(1, 7), (0, 5)]];
    assert_eq!(aggregate(&found, 0, 3), 15);
    assert_eq!(aggregate(&found, 0, 0), 10);
    assert_eq!(aggregate(&found, 1, 2), 7);
    assert_eq!(aggregate(&found, 4, 9), 0);
    assert_eq!(aggregate(&found, 3, 3), -2);
}

#[test]
fn sums_that_do_not_fit_wrap_around() {
    let ac = linked(&[("a", i64::MAX), ("a", 1), ("b", i64::MIN), ("b", i64::MIN)]);
    // i64::MAX + 1 wraps to i64::MIN
    assert_eq!(ac.evaluate(0, 1, "a"), Ok(i64::MIN));
    // partial sums leave the range, the sum itself fits
    assert_eq!(ac.evaluate(0, 2, "ab"), Ok(0));
    assert_eq!(ac.evaluate(0, 2, "ba"), Ok(0));
    assert_eq!(ac.evaluate(0, 2, "aabb"), Ok(0));
    // 2 * i64::MIN is 0 in 64 bits
    assert_eq!(ac.evaluate(2, 3, "b"), Ok(0));
    let found = ac.find_matches("aabb");
    assert_eq!(aggregate(&found, 0, 2), 0);
    assert_eq!(aggregate(&found, 0, 0), -2);
    let genes = strings(&["a", "a", "b"]);
    let health = vec![i64::MAX, 1, i64::MIN];
    let queries = vec![(0, 2, "ab".to_string()), (0, 1, "a".to_string())];
    assert_eq!(run(&genes, &health, &queries), Ok((i64::MIN, 0)));
    assert_eq!(
        dna_health_naive(genes, health, queries),
        Ok(format!("{} 0", i64::MIN))
    );
}

fn state(ac: &AhoCorasick, path: &str) -> usize {
    let mut s = 0;
    for c in path.chars() {
        s = ac.next_state(s, c).unwrap();
    }
    s
}

#[test]
fn a_new_automaton_is_the_root_alone() {
    let ac = AhoCorasick::new();
    assert_eq!(ac.states(), 1);
    assert_eq!(ac.failure(0), 0);
    assert_eq!(ac.outputs(0), vec![]);
    for c in ['a', 'h', '#', 'é'] {
        assert_eq!(ac.next_state(0, c), None);
    }
}

#[test]
fn each_pattern_adds_a_state_for_each_new_prefix() {
    let mut ac = AhoCorasick::new();
    ac.add_pattern("he", 0, 1).unwrap();
    assert_eq!(ac.states(), 3);
    ac.add_pattern("she", 1, 2).unwrap();
    assert_eq!(ac.states(), 6);
    ac.add_pattern("his", 2, 3).unwrap();
    assert_eq!(ac.states(), 8);
    let he = state(&ac, "he");
    let h = state(&ac, "h");
    ac.add_pattern("hers", 3, 4).unwrap();
    // only "her" and "hers" are new
    assert_eq!(ac.states(), 10);
    assert_eq!(state(&ac, "he"), he);
    assert_eq!(state(&ac, "h"), h);
    assert_eq!(state(&ac, "her"), 8);
    assert_eq!(state(&ac, "hers"), 9);
    assert_eq!(ac.outputs(state(&ac, "hers")), vec![(3, 4)]);
    assert_eq!(ac.outputs(he), vec![(0, 1)]);
    assert_eq!(ac.outputs(h), vec![]);
    // states come in the order in which the patterns first reach them
    for (id, path) in ["", "h", "he", "s", "sh", "she", "hi", "his", "her", "hers"].iter().enumerate() {
        assert_eq!(state(&ac, path), id);
        // no failure state is set before linking
        assert_eq!(ac.failure(id), 0);
    }
    assert_eq!(ac.next_state(0, 'e'), None);
    assert_eq!(ac.next_state(h, 'h'), None);
    // a pattern that is there already adds no state
    ac.add_pattern("she", 4, 5).unwrap();
    assert_eq!(ac.states(), 10);
    assert_eq!(ac.outputs(state(&ac, "she")), vec![(1, 2), (4, 5)]);
    // an empty pattern changes nothing
    assert_eq!(ac.add_pattern("", 5, 6), Err(DnaError::InvalidPattern));
    assert_eq!(ac.states(), 10);
}

#[test]
fn linking_sets_the_failure_states_and_nothing_else() {
    let mut ac = AhoCorasick::new();
    for (i, (p, w)) in [("he", 1), ("she", 2), ("his", 3), ("hers", 4)].iter().enumerate() {
        ac.add_pattern(p, i, *w).unwrap();
    }
    let paths = ["", "h", "he", "s", "sh", "she", "hi", "his", "her", "hers"];
    let table = |ac: &AhoCorasick| -> Vec<(Vec<Option<usize>>, Vec<(usize, i64)>)> {
        (0..ac.states())
            .map(|s| ("ehirs#".chars().map(|c| ac.next_state(s, c)).collect(), ac.outputs(s)))
            .collect()
    };
    let before = table(&ac);
    ac.build_failure_links();
    assert_eq!(ac.states(), 10);
    assert_eq!(table(&ac), before);
    let fails = |ac: &AhoCorasick, path: &str| paths[ac.failure(state(ac, path))];
    assert_eq!(fails(&ac, "she"), "he");
    assert_eq!(fails(&ac, "sh"), "h");
    assert_eq!(fails(&ac, "his"), "s");
    assert_eq!(fails(&ac, "hers"), "s");
    for path in ["", "h", "s", "he", "hi", "her"] {
        assert_eq!(fails(&ac, path), "");
    }
    // a second linking leaves every field as it was
    let links: Vec<usize> = (0..ac.states()).map(|s| ac.failure(s)).collect();
    ac.build_failure_links();
    assert_eq!((0..ac.states()).map(|s| ac.failure(s)).collect::<Vec<_>>(), links);
    assert_eq!(table(&ac), before);
    // and an automaton built afresh has the same table
    let again = linked(&[("he", 1), ("she", 2), ("his", 3), ("hers", 4)]);
    assert_eq!(table(&again), before);
    assert_eq!((0..again.states()).map(|s| again.failure(s)).collect::<Vec<_>>(), links);
}
