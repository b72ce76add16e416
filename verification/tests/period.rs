use lumen::period::{available_months, month_menu, selected_month, selected_month_or};

fn clock_month() -> String {
    chrono::Local::now().date_naive().format("%Y-%m").to_string()
}

#[test]
fn absent_selector_gives_the_current_month() {
    assert_eq!(selected_month(None), clock_month());
}

#[test]
fn blank_selector_gives_the_current_month() {
    assert_eq!(selected_month(Some("   ".to_string())), clock_month());
}

#[test]
fn present_selector_is_used_trimmed() {
    assert_eq!(selected_month(Some(" 2023-05 ".to_string())), "2023-05");
    assert_eq!(selected_month(Some("2023-05".to_string())), "2023-05");
}

#[test]
fn fallback_is_explicit_in_selected_month_or() {
    let fb = "1999-12".to_string();
    assert_eq!(selected_month_or(None, fb.clone()), "1999-12");
    assert_eq!(selected_month_or(Some("".to_string()), fb.clone()), "1999-12");
    assert_eq!(selected_month_or(Some(" 2020-02 ".to_string()), fb), "2020-02");
}

#[test]
fn menu_merges_deduplicates_and_sorts_descending() {
    let tx = vec!["2024-01".to_string(), "2023-11".to_string()];
    let budget = vec!["2024-01".to_string(), "2024-02".to_string()];
    let menu = month_menu(&tx, &budget, "2024-03".to_string());
    assert_eq!(menu, vec!["2024-03", "2024-02", "2024-01", "2023-11"]);
}

#[test]
fn menu_keeps_a_single_copy_of_the_current_month() {
    let tx = vec!["2024-03".to_string()];
    let menu = month_menu(&tx, &Vec::new(), "2024-03".to_string());
    assert_eq!(menu, vec!["2024-03"]);
}

#[test]
fn available_months_includes_the_clock_month() {
    let months = available_months(&vec!["2001-01".to_string()], &Vec::new());
    assert!(months.contains(&clock_month()));
    assert!(months.contains(&"2001-01".to_string()));
}
