use lumen::agg::{category_name_by_id, dashboard_budgets, list_budget_months, list_budgets,
    list_categories, list_months, list_transactions, month_totals, report_categories,
    report_months, spent_for};
use lumen::models::{BudgetRow, Category, TransactionRow};

fn tx(id: i64, kind: &str, amount: i64, category: Option<i64>, date: &str) -> TransactionRow {
    TransactionRow {
        id,
        kind: kind.to_string(),
        amount_cents: amount,
        category_id: category,
        occurred_on: date.to_string(),
        note: None,
        receipt_path: None,
    }
}

fn cat(id: i64, name: &str, kind: &str) -> Category {
    Category { id, name: name.to_string(), kind: kind.to_string() }
}

fn budget(id: i64, category_id: i64, month: &str, amount: i64) -> BudgetRow {
    BudgetRow { id, category_id, month: month.to_string(), amount_cents: amount }
}

#[test]
fn monthly_totals_partition_by_kind() {
    // The end-to-end scenario: one expense and one income in one month.
    let txs = vec![
        tx(1, "expense", 500, Some(1), "2024-01-10"),
        tx(2, "income", 10000, None, "2024-01-05"),
    ];
    assert_eq!(month_totals(&txs, "2024-01"), (10000, 500));
    assert_eq!(month_totals(&txs, "2024-02"), (0, 0));
}

#[test]
fn month_history_has_one_row_per_month_with_net() {
    let txs = vec![
        tx(1, "expense", 500, Some(1), "2024-01-10"),
        tx(2, "income", 10000, None, "2024-01-05"),
    ];
    let rows = report_months(&txs, 1);
    assert_eq!(rows.len(), 1);
    assert_eq!(rows[0].month, "2024-01");
    assert_eq!(rows[0].income_cents, 10000);
    assert_eq!(rows[0].expense_cents, 500);
    assert_eq!(rows[0].net_cents, 9500);
}

#[test]
fn month_history_is_recent_first_and_capped() {
    let txs = vec![
        tx(1, "income", 100, None, "2023-05-01"),
        tx(2, "income", 200, None, "2024-02-01"),
        tx(3, "expense", 50, None, "2024-02-15"),
        tx(4, "expense", 70, None, "2021-12-31"),
    ];
    let rows = report_months(&txs, 12);
    let months: Vec<&str> = rows.iter().map(|r| r.month.as_str()).collect();
    assert_eq!(months, vec!["2024-02", "2023-05", "2021-12"]);
    assert_eq!(rows[0].net_cents, 150);
    let capped = report_months(&txs, 2);
    let months: Vec<&str> = capped.iter().map(|r| r.month.as_str()).collect();
    assert_eq!(months, vec!["2024-02", "2023-05"]);
}

#[test]
fn budgets_with_no_transactions_report_zero_spent() {
    let cats = vec![cat(1, "Food", "expense"), cat(2, "Rent", "expense")];
    let budgets = vec![budget(1, 1, "2024-01", 30000), budget(2, 2, "2024-01", 50000)];
    let rows = list_budgets(&budgets, &cats, &Vec::new(), "2024-01");
    assert_eq!(rows.len(), 2);
    for row in &rows {
        assert_eq!(row.spent_cents, 0);
    }
}

#[test]
fn budgets_join_names_sum_spend_and_sort_by_name() {
    let cats = vec![cat(1, "Food", "expense"), cat(2, "Books", "expense")];
    let budgets = vec![budget(1, 1, "2024-01", 30000), budget(2, 2, "2024-01", 5000)];
    let txs = vec![
        tx(1, "expense", 1200, Some(1), "2024-01-03"),
        tx(2, "expense", 800, Some(1), "2024-01-20"),
        tx(3, "expense", 999, Some(1), "2024-02-01"),
        tx(4, "income", 777, Some(1), "2024-01-04"),
        tx(5, "expense", 300, Some(2), "2024-01-09"),
    ];
    let rows = list_budgets(&budgets, &cats, &txs, "2024-01");
    assert_eq!(rows.len(), 2);
    assert_eq!(rows[0].category_name, "Books");
    assert_eq!(rows[0].spent_cents, 300);
    assert_eq!(rows[1].category_name, "Food");
    assert_eq!(rows[1].spent_cents, 2000);
    assert_eq!(rows[1].amount_cents, 30000);
    assert_eq!(rows[1].month, "2024-01");
}

#[test]
fn budget_rows_without_a_category_are_dropped() {
    let cats = vec![cat(1, "Food", "expense")];
    let budgets = vec![budget(1, 1, "2024-01", 100), budget(2, 9, "2024-01", 200)];
    let rows = list_budgets(&budgets, &cats, &Vec::new(), "2024-01");
    assert_eq!(rows.len(), 1);
    assert_eq!(rows[0].category_name, "Food");
}

#[test]
fn dashboard_budgets_carry_the_remainder() {
    let cats = vec![cat(1, "Food", "expense")];
    let budgets = vec![budget(1, 1, "2024-01", 30000)];
    let txs = vec![tx(1, "expense", 12000, Some(1), "2024-01-15")];
    let rows = dashboard_budgets(&budgets, &cats, &txs, "2024-01");
    assert_eq!(rows.len(), 1);
    assert_eq!(rows[0].category_name, "Food");
    assert_eq!(rows[0].budget_cents, 30000);
    assert_eq!(rows[0].spent_cents, 12000);
    assert_eq!(rows[0].remaining_cents, 18000);
}

#[test]
fn spent_for_counts_only_matching_expenses() {
    let txs = vec![
        tx(1, "expense", 100, Some(1), "2024-01-01"),
        tx(2, "expense", 250, Some(1), "2024-01-30"),
        tx(3, "expense", 70, Some(2), "2024-01-05"),
        tx(4, "income", 999, Some(1), "2024-01-06"),
        tx(5, "expense", 500, Some(1), "2023-12-31"),
    ];
    assert_eq!(spent_for(&txs, 1, "2024-01"), 350);
    assert_eq!(spent_for(&txs, 3, "2024-01"), 0);
}

#[test]
fn category_report_ranks_by_descending_expense() {
    let cats = vec![cat(1, "Food", "expense"), cat(2, "Books", "expense"), cat(3, "Fun", "expense")];
    let txs = vec![
        tx(1, "expense", 100, Some(2), "2024-01-01"),
        tx(2, "expense", 900, Some(1), "2024-01-02"),
        tx(3, "expense", 400, Some(2), "2024-01-03"),
        tx(4, "expense", 50, Some(3), "2024-01-04"),
        tx(5, "expense", 777, Some(1), "2024-02-01"),
        tx(6, "income", 5000, Some(1), "2024-01-05"),
        tx(7, "expense", 60, None, "2024-01-06"),
    ];
    let rows = report_categories(&txs, &cats, "2024-01");
    let ranked: Vec<(&str, i64)> =
        rows.iter().map(|r| (r.category_name.as_str(), r.expense_cents)).collect();
    assert_eq!(ranked, vec![("Food", 900), ("Books", 500), ("Fun", 50)]);
}

#[test]
fn month_lists_are_distinct_recent_first_and_capped() {
    let txs = vec![
        tx(1, "income", 1, None, "2024-01-10"),
        tx(2, "income", 1, None, "2024-01-20"),
        tx(3, "income", 1, None, "2022-07-01"),
        tx(4, "income", 1, None, "2023-03-15"),
    ];
    assert_eq!(list_months(&txs, 24), vec!["2024-01", "2023-03", "2022-07"]);
    assert_eq!(list_months(&txs, 2), vec!["2024-01", "2023-03"]);
    let budgets = vec![budget(1, 1, "2024-05", 1), budget(2, 1, "2023-01", 1), budget(
        3,
        1,
        "2024-05",
        1,
    )];
    assert_eq!(list_budget_months(&budgets, 24), vec!["2024-05", "2023-01"]);
}

#[test]
fn category_names_resolve_by_identifier() {
    let cats = vec![cat(7, "Food", "expense"), cat(8, "Salary", "income")];
    assert_eq!(category_name_by_id(&cats, 8), Some("Salary".to_string()));
    assert_eq!(category_name_by_id(&cats, 9), None);
}

#[test]
fn categories_sort_by_kind_then_name() {
    let cats = vec![
        cat(1, "Rent", "expense"),
        cat(2, "Salary", "income"),
        cat(3, "Books", "expense"),
        cat(4, "Bonus", "income"),
    ];
    let sorted = list_categories(&cats);
    let order: Vec<(&str, &str)> =
        sorted.iter().map(|c| (c.kind.as_str(), c.name.as_str())).collect();
    assert_eq!(
        order,
        vec![("expense", "Books"), ("expense", "Rent"), ("income", "Bonus"), ("income", "Salary")]
    );
}

#[test]
fn transactions_list_filters_joins_and_sorts() {
    let cats = vec![cat(1, "Food", "expense")];
    let txs = vec![
        tx(1, "expense", 100, Some(1), "2024-01-10"),
        tx(2, "income", 5000, None, "2024-01-25"),
        tx(3, "expense", 70, Some(1), "2024-02-05"),
        tx(4, "expense", 30, Some(9), "2024-01-25"),
    ];
    let rows = list_transactions(&txs, &cats, Some("2024-01"));
    let order: Vec<i64> = rows.iter().map(|r| r.id).collect();
    assert_eq!(order, vec![4, 2, 1]);
    assert_eq!(rows[0].category_name, None);
    assert_eq!(rows[1].category_name, None);
    assert_eq!(rows[2].category_name, Some("Food".to_string()));
    let all = list_transactions(&txs, &cats, None);
    let order: Vec<i64> = all.iter().map(|r| r.id).collect();
    assert_eq!(order, vec![3, 4, 2, 1]);
}
