use predator_vs_prey::cli::{
    median_duration, mutations_from_answer, order_top_predators, parse_arg, parse_arg_str,
    parse_top_predator_name, parse_usize, replaces_best,
};

fn args(list: &[&str]) -> Vec<String> {
    list.iter().map(|s| s.to_string()).collect()
}

#[test]
fn parse_arg_str_takes_value_after_first_flag() {
    let a = args(&["bench", "--output", "res", "--output", "other"]);
    assert_eq!(parse_arg_str(&a, "--output"), Some("res".to_string()));
    assert_eq!(parse_arg_str(&a, "--frames"), None);
    let last = args(&["bench", "--output"]);
    assert_eq!(parse_arg_str(&last, "--output"), None);
}

#[test]
fn parse_arg_reads_numbers() {
    let a = args(&["bench", "--iterations", "12", "--warmup", "x", "--frames", "+500"]);
    assert_eq!(parse_arg(&a, "--iterations"), Some(12));
    assert_eq!(parse_arg(&a, "--warmup"), None);
    assert_eq!(parse_arg(&a, "--frames"), Some(500));
    assert_eq!(parse_arg(&a, "--missing"), None);
}

#[test]
fn parse_usize_follows_std() {
    for s in ["0", "7", "+42", "007", "18446744073709551615", "", "+", "-1", "1 ", "4a", "99999999999999999999"] {
        assert_eq!(parse_usize(s), s.parse::<usize>().ok(), "input {:?}", s);
    }
}

#[test]
fn median_takes_upper_middle() {
    assert_eq!(median_duration(vec![5]), 5);
    assert_eq!(median_duration(vec![3, 1, 2]), 2);
    assert_eq!(median_duration(vec![40, 10, 30, 20]), 30);
    assert_eq!(median_duration(vec![9, 9, 1, 9, 1]), 9);
}

#[test]
fn top_predator_names() {
    assert_eq!(parse_top_predator_name("gen_5000.json"), Some((5000, 1)));
    assert_eq!(parse_top_predator_name("gen_12_rank3.json"), Some((12, 3)));
    assert_eq!(parse_top_predator_name("gen_12_rankx.json"), None);
    assert_eq!(parse_top_predator_name("gen_.json"), None);
    assert_eq!(parse_top_predator_name("gen_5.txt"), None);
    assert_eq!(parse_top_predator_name("best_5.json"), None);
    assert_eq!(parse_top_predator_name("gen_1_rank2_rank3.json"), None);
}

#[test]
fn top_predators_sorted_stably() {
    let keys = vec![(20, 1), (10, 2), (10, 1), (20, 1), (5, 9)];
    assert_eq!(order_top_predators(&keys), vec![4, 2, 1, 0, 3]);
    assert!(order_top_predators(&Vec::new()).is_empty());
}

#[test]
fn best_run_rule() {
    assert!(replaces_best((10, 0), None));
    assert!(replaces_best((11, 0), Some((10, 5))));
    assert!(replaces_best((10, 6), Some((10, 5))));
    assert!(!replaces_best((10, 5), Some((10, 5))));
    assert!(!replaces_best((9, 50), Some((10, 5))));
}

#[test]
fn mutation_answers() {
    assert_eq!(mutations_from_answer("  15\n"), 15);
    assert_eq!(mutations_from_answer(""), 12);
    assert_eq!(mutations_from_answer("\n"), 12);
    assert_eq!(mutations_from_answer("abc\n"), 12);
    for s in ["3", " +7 ", "\u{3000}8\u{a0}", "\t\t", "1 2", "-1", "0\r\n", "\u{85}42\u{2029}"] {
        let expected = match s.trim() {
            "" => 12,
            t => t.parse::<usize>().unwrap_or(12),
        };
        assert_eq!(mutations_from_answer(s), expected, "input {:?}", s);
    }
}
