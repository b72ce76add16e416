//! View assembly: maps aggregation rows into display-ready
//! structures.  Money fields are always rendered through the money
//! codec; raw minor-unit integers never reach the presentation
//! boundary.

use vstd::prelude::*;

use crate::models::{BudgetRecord, DashboardBudget, ReportCategory, ReportMonth,
    TransactionRecord};
use crate::money::{format_money, spec_format_money};

verus! {

/// A transaction ready for display.
pub struct TransactionView {
    pub id: i64,
    pub kind: String,
    pub amount: String,
    pub occurred_on: String,
    pub note: Option<String>,
    pub category_name: Option<String>,
    pub receipt_url: Option<String>,
}

/// A budget line ready for display.
pub struct BudgetView {
    pub id: i64,
    pub category_name: String,
    pub month: String,
    pub amount: String,
    pub spent: String,
    pub remaining: String,
    pub percent: i64,
}

/// A dashboard budget line ready for display.
pub struct DashboardBudgetView {
    pub category_name: String,
    pub budget: String,
    pub spent: String,
    pub remaining: String,
    pub percent: i64,
}

/// A month of report history ready for display.
pub struct ReportMonthView {
    pub month: String,
    pub income: String,
    pub expense: String,
    pub net: String,
}

/// A category expense row ready for display.
pub struct ReportCategoryView {
    pub category_name: String,
    pub expense: String,
}

/// The share of a budget that is spent, as a whole-number
/// percentage rounded to nearest (halves away from zero); zero when
/// nothing is allocated, so a zero budget never divides by zero.
pub open spec fn spec_percent(spent: int, allocated: int) -> int {
    if allocated == 0 {
        0
    } else {
        (200 * spent + allocated) / (2 * allocated)
    }
}

/// Caps a non-negative value at the machine range.
pub open spec fn clamp_to_i64(v: int) -> int {
    if v > i64::MAX {
        i64::MAX as int
    } else {
        v
    }
}

/// A budget with nothing allocated always reports zero percent
/// spent, whatever was spent: a zero allocation never divides.
pub proof fn lemma_zero_allocation_zero_percent(spent: int)
    ensures
        spec_percent(spent, 0) == 0,
        clamp_to_i64(spec_percent(spent, 0)) == 0,
{
}

/// Computes [`spec_percent`], capped at the machine range.
pub fn percent_of(spent: i64, allocated: i64) -> (r: i64)
    requires
        0 <= spent,
        0 <= allocated,
    ensures
        r == clamp_to_i64(spec_percent(spent as int, allocated as int)),
{
    if allocated == 0 {
        0
    } else {
        let num: u128 = 200 * (spent as u128) + (allocated as u128);
        let den: u128 = 2 * (allocated as u128);
        let q: u128 = num / den;
        if q > i64::MAX as u128 {
            i64::MAX
        } else {
            q as i64
        }
    }
}

/// Prepares a transaction for display: formats the amount and, when
/// a receipt is stored, derives its URL from the fixed path prefix.
pub fn transaction_view(record: TransactionRecord) -> (v: TransactionView)
    ensures
        v.id == record.id,
        v.kind == record.kind,
        v.amount@ == spec_format_money(record.amount_cents as int),
        v.occurred_on == record.occurred_on,
        v.note == record.note,
        v.category_name == record.category_name,
        (v.receipt_url is Some) == (record.receipt_path is Some),
        (match record.receipt_path {
            Some(n) => (match v.receipt_url {
                Some(u) => u@ == "/receipts/"@ + n@,
                None => false,
            }),
            None => true,
        }),
{
    let receipt_url = match record.receipt_path {
        Some(name) => {
            let mut u = String::from_str("/receipts/");
            u.append(name.as_str());
            Some(u)
        },
        None => None,
    };
    TransactionView {
        id: record.id,
        kind: record.kind,
        amount: format_money(record.amount_cents),
        occurred_on: record.occurred_on,
        note: record.note,
        category_name: record.category_name,
        receipt_url,
    }
}

/// Prepares a budget record for display: formatted allocation, spend
/// and remainder, and the spent percentage.
pub fn budget_view(record: BudgetRecord) -> (v: BudgetView)
    requires
        0 <= record.amount_cents,
        0 <= record.spent_cents,
    ensures
        v.id == record.id,
        v.category_name == record.category_name,
        v.month == record.month,
        v.amount@ == spec_format_money(record.amount_cents as int),
        v.spent@ == spec_format_money(record.spent_cents as int),
        v.remaining@ == spec_format_money(record.amount_cents - record.spent_cents),
        v.percent == clamp_to_i64(
            spec_percent(record.spent_cents as int, record.amount_cents as int),
        ),
{
    let remaining = record.amount_cents - record.spent_cents;
    let percent = percent_of(record.spent_cents, record.amount_cents);
    BudgetView {
        id: record.id,
        category_name: record.category_name,
        month: record.month,
        amount: format_money(record.amount_cents),
        spent: format_money(record.spent_cents),
        remaining: format_money(remaining),
        percent,
    }
}

/// Prepares a dashboard budget line for display.
pub fn dashboard_budget_view(record: DashboardBudget) -> (v: DashboardBudgetView)
    requires
        0 <= record.budget_cents,
        0 <= record.spent_cents,
    ensures
        v.category_name == record.category_name,
        v.budget@ == spec_format_money(record.budget_cents as int),
        v.spent@ == spec_format_money(record.spent_cents as int),
        v.remaining@ == spec_format_money(record.remaining_cents as int),
        v.percent == clamp_to_i64(
            spec_percent(record.spent_cents as int, record.budget_cents as int),
        ),
{
    let percent = percent_of(record.spent_cents, record.budget_cents);
    DashboardBudgetView {
        category_name: record.category_name,
        budget: format_money(record.budget_cents),
        spent: format_money(record.spent_cents),
        remaining: format_money(record.remaining_cents),
        percent,
    }
}

/// Prepares a month of report history for display.
pub fn report_month_view(record: ReportMonth) -> (v: ReportMonthView)
    ensures
        v.month == record.month,
        v.income@ == spec_format_money(record.income_cents as int),
        v.expense@ == spec_format_money(record.expense_cents as int),
        v.net@ == spec_format_money(record.net_cents as int),
{
    ReportMonthView {
        month: record.month,
        income: format_money(record.income_cents),
        expense: format_money(record.expense_cents),
        net: format_money(record.net_cents),
    }
}

/// Prepares a category expense row for display.
pub fn report_category_view(record: ReportCategory) -> (v: ReportCategoryView)
    ensures
        v.category_name == record.category_name,
        v.expense@ == spec_format_money(record.expense_cents as int),
{
    ReportCategoryView {
        category_name: record.category_name,
        expense: format_money(record.expense_cents),
    }
}

} // verus!
