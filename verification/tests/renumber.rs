use move_numeric_files::numbers::{format_number, parse_leading_number};
use move_numeric_files::renumber::{compute_plan, parse_numeric_file_name, PlanError};

fn names(list: &[&str]) -> Vec<String> {
    list.iter().map(|s| s.to_string()).collect()
}

#[test]
fn first_seen_file_keeps_its_number() {
    let files = names(&["1_a.txt", "1_b.txt", "2_c.txt"]);
    let plan = compute_plan(&files, 1, &None).expect("plan");
    assert_eq!(plan.len(), 1);
    assert_eq!(plan[0].from, "1_b.txt");
    assert_eq!(plan[0].to, "3_b.txt");
}

#[test]
fn configured_keep_file_keeps_its_number() {
    let files = names(&["1_a.txt", "1_b.txt", "2_c.txt"]);
    let keep = Some("1_b.txt".to_string());
    let plan = compute_plan(&files, 1, &keep).expect("plan");
    assert_eq!(plan.len(), 1);
    assert_eq!(plan[0].from, "1_a.txt");
    assert_eq!(plan[0].to, "3_a.txt");
}

#[test]
fn unnumbered_file_is_untouched() {
    let files = names(&["foo.txt"]);
    let plan = compute_plan(&files, 1, &None).expect("plan");
    assert_eq!(plan.len(), 0);
}

#[test]
fn unique_numbers_need_no_renames() {
    let files = names(&["1_a.txt", "2_b.txt", "3_c.txt"]);
    let plan = compute_plan(&files, 1, &None).expect("plan");
    assert_eq!(plan.len(), 0);
}

#[test]
fn applying_the_plan_is_idempotent() {
    let files = names(&["1_a.txt", "1_b.txt", "2_c.txt"]);
    let plan = compute_plan(&files, 1, &None).expect("plan");
    let mut applied = files.clone();
    for step in &plan {
        for name in applied.iter_mut() {
            if *name == step.from {
                *name = step.to.clone();
            }
        }
    }
    let second = compute_plan(&applied, 1, &None).expect("second plan");
    assert_eq!(second.len(), 0);
}

#[test]
fn occupied_start_is_skipped() {
    let files = names(&["2_a.txt", "2_b.txt", "1_c.txt"]);
    let plan = compute_plan(&files, 1, &None).expect("plan");
    assert_eq!(plan.len(), 1);
    assert_eq!(plan[0].from, "2_b.txt");
    assert_eq!(plan[0].to, "3_b.txt");
}

#[test]
fn numbers_group_by_value_not_by_spelling() {
    let files = names(&["007_a.txt", "7_b.txt"]);
    let plan = compute_plan(&files, 1, &None).expect("plan");
    assert_eq!(plan.len(), 1);
    assert_eq!(plan[0].from, "7_b.txt");
    assert_eq!(plan[0].to, "1_b.txt");
}

#[test]
fn zero_padding_width_is_preserved() {
    let files = names(&["007_a.txt", "007_b.txt"]);
    let plan = compute_plan(&files, 1, &None).expect("plan");
    assert_eq!(plan.len(), 1);
    assert_eq!(plan[0].from, "007_b.txt");
    assert_eq!(plan[0].to, "001_b.txt");
}

#[test]
fn later_groups_never_reuse_assigned_numbers() {
    let files = names(&["1_a.txt", "1_b.txt", "2_c.txt", "2_d.txt"]);
    let plan = compute_plan(&files, 1, &None).expect("plan");
    assert_eq!(plan.len(), 2);
    assert_eq!(plan[0].from, "1_b.txt");
    assert_eq!(plan[0].to, "3_b.txt");
    assert_eq!(plan[1].from, "2_d.txt");
    assert_eq!(plan[1].to, "4_d.txt");
}

#[test]
fn exhausted_number_space_is_an_error() {
    let files = names(&["4294967295_a.txt", "4294967295_b.txt"]);
    let result = compute_plan(&files, u32::MAX, &None);
    assert!(matches!(result, Err(PlanError::NumbersExhausted)));
}

#[test]
fn keep_file_absent_from_group_falls_back_to_first() {
    let files = names(&["5_a.txt", "5_b.txt"]);
    let keep = Some("9_z.txt".to_string());
    let plan = compute_plan(&files, 1, &keep).expect("plan");
    assert_eq!(plan.len(), 1);
    assert_eq!(plan[0].from, "5_b.txt");
    assert_eq!(plan[0].to, "1_b.txt");
}

#[test]
fn parse_splits_name_at_digit_run() {
    let parsed = parse_numeric_file_name("12_x.txt").expect("numeric name");
    assert_eq!(parsed.prefix_digits, 12);
    assert_eq!(parsed.remainder, "_x.txt");
    assert_eq!(parsed.original_name, "12_x.txt");
}

#[test]
fn parse_rejects_unnumbered_names() {
    assert!(parse_numeric_file_name("foo.txt").is_none());
    assert!(parse_numeric_file_name("").is_none());
}

#[test]
fn parse_rejects_numbers_out_of_range() {
    assert!(parse_numeric_file_name("99999999999999999999_x.txt").is_none());
    assert!(parse_leading_number("4294967296_x").is_none());
    assert_eq!(parse_leading_number("4294967295_x"), Some((u32::MAX, 10)));
}

#[test]
fn format_pads_to_the_asked_width() {
    assert_eq!(format_number(7, 3), "007");
    assert_eq!(format_number(1234, 2), "1234");
    assert_eq!(format_number(0, 1), "0");
}
