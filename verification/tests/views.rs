use lumen::models::{BudgetRecord, DashboardBudget, ReportCategory, ReportMonth,
    TransactionRecord};
use lumen::views::{budget_view, dashboard_budget_view, percent_of, report_category_view,
    report_month_view, transaction_view};

fn budget_record(amount: i64, spent: i64) -> BudgetRecord {
    BudgetRecord {
        id: 1,
        category_id: 2,
        category_name: "Food".to_string(),
        month: "2024-01".to_string(),
        amount_cents: amount,
        spent_cents: spent,
    }
}

#[test]
fn zero_allocation_reports_zero_percent() {
    // No division by zero, whatever was spent.
    assert_eq!(percent_of(0, 0), 0);
    assert_eq!(percent_of(12345, 0), 0);
    let v = budget_view(budget_record(0, 50000));
    assert_eq!(v.percent, 0);
    assert_eq!(v.remaining, "-500.00");
}

#[test]
fn percent_rounds_to_nearest() {
    assert_eq!(percent_of(1, 3), 33);
    assert_eq!(percent_of(2, 3), 67);
    assert_eq!(percent_of(1, 200), 1);
    assert_eq!(percent_of(0, 7), 0);
    assert_eq!(percent_of(7, 7), 100);
    assert_eq!(percent_of(21, 7), 300);
}

#[test]
fn budget_views_format_all_money_fields() {
    let v = budget_view(budget_record(30000, 12000));
    assert_eq!(v.amount, "300.00");
    assert_eq!(v.spent, "120.00");
    assert_eq!(v.remaining, "180.00");
    assert_eq!(v.percent, 40);
    assert_eq!(v.category_name, "Food");
    assert_eq!(v.month, "2024-01");
}

#[test]
fn dashboard_views_use_the_stored_remainder() {
    let v = dashboard_budget_view(DashboardBudget {
        category_name: "Rent".to_string(),
        budget_cents: 100000,
        spent_cents: 25000,
        remaining_cents: 75000,
    });
    assert_eq!(v.budget, "1000.00");
    assert_eq!(v.spent, "250.00");
    assert_eq!(v.remaining, "750.00");
    assert_eq!(v.percent, 25);
}

#[test]
fn transaction_views_derive_the_receipt_url() {
    let with_receipt = transaction_view(TransactionRecord {
        id: 9,
        kind: "expense".to_string(),
        amount_cents: 1234,
        occurred_on: "2024-01-10".to_string(),
        note: Some("utilities".to_string()),
        category_name: Some("ЖКХ".to_string()),
        receipt_path: Some("receipt-17.jpg".to_string()),
    });
    assert_eq!(with_receipt.amount, "12.34");
    assert_eq!(with_receipt.receipt_url, Some("/receipts/receipt-17.jpg".to_string()));
    let without = transaction_view(TransactionRecord {
        id: 10,
        kind: "income".to_string(),
        amount_cents: 5,
        occurred_on: "2024-01-11".to_string(),
        note: None,
        category_name: None,
        receipt_path: None,
    });
    assert_eq!(without.receipt_url, None);
    assert_eq!(without.amount, "0.05");
}

#[test]
fn report_views_format_sums_and_net() {
    let m = report_month_view(ReportMonth {
        month: "2024-01".to_string(),
        income_cents: 10000,
        expense_cents: 500,
        net_cents: 9500,
    });
    assert_eq!(m.income, "100.00");
    assert_eq!(m.expense, "5.00");
    assert_eq!(m.net, "95.00");
    let c = report_category_view(ReportCategory {
        category_name: "Food".to_string(),
        expense_cents: 2050,
    });
    assert_eq!(c.expense, "20.50");
}
