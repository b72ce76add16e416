//! Record types: rows as the store hands them over, and the joined
//! projections that reports and pages are built from.

use vstd::prelude::*;

verus! {

/// A category of income or expense.
pub struct Category {
    pub id: i64,
    pub name: String,
    pub kind: String,
}

/// A raw transaction row: a non-negative amount in minor units whose
/// meaning (income or expense) comes from `kind`, an occurrence date
/// in `YYYY-MM-DD` form, and optional note, category and receipt.
pub struct TransactionRow {
    pub id: i64,
    pub kind: String,
    pub amount_cents: i64,
    pub category_id: Option<i64>,
    pub occurred_on: String,
    pub note: Option<String>,
    pub receipt_path: Option<String>,
}

/// A raw budget row: an allocation for one category in one month.
/// Several rows may exist for the same category and month; reports
/// list them all.
pub struct BudgetRow {
    pub id: i64,
    pub category_id: i64,
    pub month: String,
    pub amount_cents: i64,
}

/// A transaction joined with its category's name.
pub struct TransactionRecord {
    pub id: i64,
    pub kind: String,
    pub amount_cents: i64,
    pub occurred_on: String,
    pub note: Option<String>,
    pub category_name: Option<String>,
    pub receipt_path: Option<String>,
}

/// A budget row joined with its category's name and the amount spent
/// against it in its month.
pub struct BudgetRecord {
    pub id: i64,
    pub category_id: i64,
    pub category_name: String,
    pub month: String,
    pub amount_cents: i64,
    pub spent_cents: i64,
}

/// One month of history: income, expense and their difference.
pub struct ReportMonth {
    pub month: String,
    pub income_cents: i64,
    pub expense_cents: i64,
    pub net_cents: i64,
}

/// One category's expense total within a month.
pub struct ReportCategory {
    pub category_name: String,
    pub expense_cents: i64,
}

/// A budget line for the dashboard: allocation, spend and remainder.
pub struct DashboardBudget {
    pub category_name: String,
    pub budget_cents: i64,
    pub spent_cents: i64,
    pub remaining_cents: i64,
}

// ---------------------------------------------------------------------------
// Mathematical views
// ---------------------------------------------------------------------------

/// The mathematical value of a [`BudgetRecord`].
pub struct BudgetRecordV {
    pub id: int,
    pub category_id: int,
    pub category_name: Seq<char>,
    pub month: Seq<char>,
    pub amount_cents: int,
    pub spent_cents: int,
}

impl View for BudgetRecord {
    type V = BudgetRecordV;

    open spec fn view(&self) -> BudgetRecordV {
        BudgetRecordV {
            id: self.id as int,
            category_id: self.category_id as int,
            category_name: self.category_name@,
            month: self.month@,
            amount_cents: self.amount_cents as int,
            spent_cents: self.spent_cents as int,
        }
    }
}

/// The mathematical value of a [`DashboardBudget`].
pub struct DashboardBudgetV {
    pub category_name: Seq<char>,
    pub budget_cents: int,
    pub spent_cents: int,
    pub remaining_cents: int,
}

impl View for DashboardBudget {
    type V = DashboardBudgetV;

    open spec fn view(&self) -> DashboardBudgetV {
        DashboardBudgetV {
            category_name: self.category_name@,
            budget_cents: self.budget_cents as int,
            spent_cents: self.spent_cents as int,
            remaining_cents: self.remaining_cents as int,
        }
    }
}

/// The mathematical value of a [`ReportMonth`].
pub struct ReportMonthV {
    pub month: Seq<char>,
    pub income_cents: int,
    pub expense_cents: int,
    pub net_cents: int,
}

impl View for ReportMonth {
    type V = ReportMonthV;

    open spec fn view(&self) -> ReportMonthV {
        ReportMonthV {
            month: self.month@,
            income_cents: self.income_cents as int,
            expense_cents: self.expense_cents as int,
            net_cents: self.net_cents as int,
        }
    }
}

/// The mathematical value of a [`ReportCategory`].
pub struct ReportCategoryV {
    pub category_name: Seq<char>,
    pub expense_cents: int,
}

impl View for ReportCategory {
    type V = ReportCategoryV;

    open spec fn view(&self) -> ReportCategoryV {
        ReportCategoryV {
            category_name: self.category_name@,
            expense_cents: self.expense_cents as int,
        }
    }
}

/// The mathematical value of a [`Category`].
pub struct CategoryV {
    pub id: int,
    pub name: Seq<char>,
    pub kind: Seq<char>,
}

impl View for Category {
    type V = CategoryV;

    open spec fn view(&self) -> CategoryV {
        CategoryV { id: self.id as int, name: self.name@, kind: self.kind@ }
    }
}

/// The mathematical value of a [`TransactionRecord`].
pub struct TransactionRecordV {
    pub id: int,
    pub kind: Seq<char>,
    pub amount_cents: int,
    pub occurred_on: Seq<char>,
    pub note: Option<Seq<char>>,
    pub category_name: Option<Seq<char>>,
    pub receipt_path: Option<Seq<char>>,
}

impl View for TransactionRecord {
    type V = TransactionRecordV;

    open spec fn view(&self) -> TransactionRecordV {
        TransactionRecordV {
            id: self.id as int,
            kind: self.kind@,
            amount_cents: self.amount_cents as int,
            occurred_on: self.occurred_on@,
            note: (match self.note {
                Some(n) => Some(n@),
                None => None,
            }),
            category_name: (match self.category_name {
                Some(n) => Some(n@),
                None => None,
            }),
            receipt_path: (match self.receipt_path {
                Some(n) => Some(n@),
                None => None,
            }),
        }
    }
}

} // verus!
