//! Aggregation over transaction and budget rows: monthly totals,
//! budget-versus-spend comparisons, month-by-month history and ranked
//! category expenses.  All aggregations are read-only and return an
//! empty result rather than failing when nothing matches.

use vstd::prelude::*;

use crate::models::{BudgetRecord, BudgetRecordV, BudgetRow, Category, DashboardBudget,
    DashboardBudgetV, ReportCategory, ReportCategoryV, ReportMonth, TransactionRecord,
    TransactionRecordV, TransactionRow};
use crate::period::{insert_month, lemma_push_to_set, month_views, sorted_desc};
use crate::text::{lemma_lex_irrefl, lemma_lex_lt_le_trans, lemma_lex_trans, lex_lt, str_eq,
    str_has_prefix, str_lex_lt};

verus! {

// ---------------------------------------------------------------------------
// Month scoping
// ---------------------------------------------------------------------------

/// Does the date `d` (in `YYYY-MM-DD` form) fall in month `m` (in
/// `YYYY-MM` form)?  True when `d` continues `m` with a dash.
pub open spec fn in_month(d: Seq<char>, m: Seq<char>) -> bool {
    d.len() > m.len() && d.take(m.len() as int) == m && d[m.len() as int] == '-'
}

/// Decides [`in_month`].
pub fn occurs_in_month(d: &str, m: &str) -> (r: bool)
    ensures
        r == in_month(d@, m@),
{
    let dn = d.unicode_len();
    let mn = m.unicode_len();
    if dn <= mn {
        return false;
    }
    if !str_has_prefix(d, m) {
        return false;
    }
    let c = d.get_char(mn);
    c == '-'
}

/// The month a date belongs to: its first seven characters.
pub open spec fn month_key(d: Seq<char>) -> Seq<char> {
    if d.len() <= 7 {
        d
    } else {
        d.take(7)
    }
}

/// Extracts [`month_key`] from a date string.
pub fn month_of(d: &str) -> (r: String)
    ensures
        r@ == month_key(d@),
{
    let n = d.unicode_len();
    if n <= 7 {
        String::from_str(d)
    } else {
        String::from_str(d.substring_char(0, 7))
    }
}

// ---------------------------------------------------------------------------
// Sums
// ---------------------------------------------------------------------------

/// The sum of all transaction amounts.
pub open spec fn sum_amounts(ts: Seq<TransactionRow>) -> int
    decreases ts.len(),
{
    if ts.len() == 0 {
        0
    } else {
        sum_amounts(ts.drop_last()) + ts.last().amount_cents
    }
}

/// Every amount is a non-negative magnitude, as stored rows promise.
pub open spec fn nonneg_amounts(ts: Seq<TransactionRow>) -> bool {
    forall|i: int| 0 <= i < ts.len() ==> 0 <= #[trigger] ts[i].amount_cents
}

/// The sum of the amounts of the transactions matching `p`.
pub open spec fn sum_matching(ts: Seq<TransactionRow>, p: spec_fn(TransactionRow) -> bool) -> int
    decreases ts.len(),
{
    if ts.len() == 0 {
        0
    } else {
        sum_matching(ts.drop_last(), p) + if p(ts.last()) {
            ts.last().amount_cents as int
        } else {
            0
        }
    }
}

/// Transactions of the given kind whose date falls in month `m`.
pub open spec fn kind_in_month(kind: Seq<char>, m: Seq<char>) -> spec_fn(TransactionRow) -> bool {
    |t: TransactionRow| t.kind@ == kind && in_month(t.occurred_on@, m)
}

/// Expense transactions in month `m` charged to category `cat`.
pub open spec fn expense_for_category(cat: i64, m: Seq<char>) -> spec_fn(TransactionRow) -> bool {
    |t: TransactionRow|
        t.kind@ == "expense"@ && in_month(t.occurred_on@, m) && t.category_id == Some(cat)
}

/// Transactions of the given kind whose [`month_key`] is `m`.
pub open spec fn kind_in_key_month(kind: Seq<char>, m: Seq<char>) -> spec_fn(
    TransactionRow,
) -> bool {
    |t: TransactionRow| t.kind@ == kind && month_key(t.occurred_on@) == m
}

/// A matching sum over non-negative amounts lies between zero and the
/// total of all amounts.
pub proof fn lemma_sum_matching_bounds(ts: Seq<TransactionRow>, p: spec_fn(TransactionRow) -> bool)
    requires
        nonneg_amounts(ts),
    ensures
        0 <= sum_matching(ts, p) <= sum_amounts(ts),
    decreases ts.len(),
{
    if ts.len() > 0 {
        assert(nonneg_amounts(ts.drop_last()));
        lemma_sum_matching_bounds(ts.drop_last(), p);
        assert(0 <= ts.last().amount_cents);
    }
}

proof fn lemma_sum_matching_take_step(
    ts: Seq<TransactionRow>,
    p: spec_fn(TransactionRow) -> bool,
    i: int,
)
    requires
        0 <= i < ts.len(),
    ensures
        sum_matching(ts.take(i + 1), p) == sum_matching(ts.take(i), p) + if p(ts[i]) {
            ts[i].amount_cents as int
        } else {
            0
        },
{
    assert(ts.take(i + 1).drop_last() =~= ts.take(i));
}

proof fn lemma_sum_amounts_take_step(ts: Seq<TransactionRow>, i: int)
    requires
        0 <= i < ts.len(),
    ensures
        sum_amounts(ts.take(i + 1)) == sum_amounts(ts.take(i)) + ts[i].amount_cents,
{
    assert(ts.take(i + 1).drop_last() =~= ts.take(i));
}

/// For non-negative amounts, a prefix sums to at most the whole.
pub proof fn lemma_sum_amounts_prefix_le(ts: Seq<TransactionRow>, i: int)
    requires
        nonneg_amounts(ts),
        0 <= i <= ts.len(),
    ensures
        sum_amounts(ts.take(i)) <= sum_amounts(ts),
    decreases ts.len() - i,
{
    if i == ts.len() {
        assert(ts.take(i) =~= ts);
    } else {
        lemma_sum_amounts_take_step(ts, i);
        lemma_sum_amounts_prefix_le(ts, i + 1);
    }
}

// ---------------------------------------------------------------------------
// Monthly totals
// ---------------------------------------------------------------------------

/// Income and expense totals for one month: sums of transaction
/// amounts whose date falls in `month`, partitioned by kind.  Absent
/// rows yield zero, never an error.
pub fn month_totals(txs: &Vec<TransactionRow>, month: &str) -> (r: (i64, i64))
    requires
        nonneg_amounts(txs@),
        sum_amounts(txs@) <= i64::MAX,
    ensures
        r.0 == sum_matching(txs@, kind_in_month("income"@, month@)),
        r.1 == sum_matching(txs@, kind_in_month("expense"@, month@)),
{
    let ghost pin = kind_in_month("income"@, month@);
    let ghost pex = kind_in_month("expense"@, month@);
    let mut income: i64 = 0;
    let mut expense: i64 = 0;
    let mut i: usize = 0;
    while i < txs.len()
        invariant
            nonneg_amounts(txs@),
            sum_amounts(txs@) <= i64::MAX,
            pin == kind_in_month("income"@, month@),
            pex == kind_in_month("expense"@, month@),
            0 <= i <= txs@.len(),
            income == sum_matching(txs@.take(i as int), pin),
            expense == sum_matching(txs@.take(i as int), pex),
        decreases txs@.len() - i,
    {
        let t = &txs[i];
        let is_inc = str_eq(t.kind.as_str(), "income");
        let is_exp = str_eq(t.kind.as_str(), "expense");
        let in_m = occurs_in_month(t.occurred_on.as_str(), month);
        proof {
            lemma_sum_matching_take_step(txs@, pin, i as int);
            lemma_sum_matching_take_step(txs@, pex, i as int);
            assert(nonneg_amounts(txs@.take(i + 1)));
            lemma_sum_matching_bounds(txs@.take(i + 1), pin);
            lemma_sum_matching_bounds(txs@.take(i + 1), pex);
            lemma_sum_amounts_prefix_le(txs@, i + 1);
        }
        if is_inc && in_m {
            income = income + t.amount_cents;
        }
        if is_exp && in_m {
            expense = expense + t.amount_cents;
        }
        i = i + 1;
    }
    proof {
        assert(txs@.take(txs@.len() as int) =~= txs@);
    }
    (income, expense)
}

// ---------------------------------------------------------------------------
// Category lookup
// ---------------------------------------------------------------------------

/// The name of the first category carrying the given identifier.
pub open spec fn cat_name(cats: Seq<Category>, id: i64) -> Option<Seq<char>>
    decreases cats.len(),
{
    if cats.len() == 0 {
        None
    } else if cats[0].id == id {
        Some(cats[0].name@)
    } else {
        cat_name(cats.drop_first(), id)
    }
}

/// Looks a category's name up by its identifier; `None` when no such
/// category exists.
pub fn category_name_by_id(cats: &Vec<Category>, category_id: i64) -> (r: Option<String>)
    ensures
        (match r {
            Some(n) => cat_name(cats@, category_id) == Some(n@),
            None => cat_name(cats@, category_id) is None,
        }),
{
    let mut i: usize = 0;
    proof {
        assert(cats@.skip(0) =~= cats@);
    }
    while i < cats.len()
        invariant
            0 <= i <= cats@.len(),
            cat_name(cats@, category_id) == cat_name(cats@.skip(i as int), category_id),
        decreases cats@.len() - i,
    {
        if cats[i].id == category_id {
            proof {
                assert(cats@.skip(i as int)[0] == cats@[i as int]);
            }
            return Some(cats[i].name.clone());
        }
        proof {
            assert(cats@.skip(i as int)[0] == cats@[i as int]);
            assert(cats@.skip(i as int).drop_first() =~= cats@.skip(i + 1));
        }
        i = i + 1;
    }
    None
}

// ---------------------------------------------------------------------------
// Spending against a budget
// ---------------------------------------------------------------------------

/// The amount spent in `month` against category `cat`: the sum of
/// the matching expense transactions.
pub fn spent_for(txs: &Vec<TransactionRow>, cat: i64, month: &str) -> (r: i64)
    requires
        nonneg_amounts(txs@),
        sum_amounts(txs@) <= i64::MAX,
    ensures
        r == sum_matching(txs@, expense_for_category(cat, month@)),
        0 <= r <= sum_amounts(txs@),
{
    let ghost p = expense_for_category(cat, month@);
    proof {
        lemma_sum_matching_bounds(txs@, p);
    }
    let mut acc: i64 = 0;
    let mut i: usize = 0;
    while i < txs.len()
        invariant
            nonneg_amounts(txs@),
            sum_amounts(txs@) <= i64::MAX,
            p == expense_for_category(cat, month@),
            0 <= i <= txs@.len(),
            acc == sum_matching(txs@.take(i as int), p),
            0 <= acc <= sum_amounts(txs@),
        decreases txs@.len() - i,
    {
        let t = &txs[i];
        let is_exp = str_eq(t.kind.as_str(), "expense");
        let in_m = occurs_in_month(t.occurred_on.as_str(), month);
        let is_cat = match t.category_id {
            Some(c) => c == cat,
            None => false,
        };
        proof {
            lemma_sum_matching_take_step(txs@, p, i as int);
            assert(nonneg_amounts(txs@.take(i + 1)));
            lemma_sum_matching_bounds(txs@.take(i + 1), p);
            lemma_sum_amounts_prefix_le(txs@, i + 1);
        }
        if is_exp && in_m && is_cat {
            acc = acc + t.amount_cents;
        }
        i = i + 1;
    }
    proof {
        assert(txs@.take(txs@.len() as int) =~= txs@);
    }
    acc
}

// ---------------------------------------------------------------------------
// Multiset plumbing for sorted insertion
// ---------------------------------------------------------------------------

proof fn lemma_to_multiset_insert<A>(s: Seq<A>, i: int, x: A)
    requires
        0 <= i <= s.len(),
    ensures
        s.insert(i, x).to_multiset() == s.to_multiset().insert(x),
{
    broadcast use vstd::seq_lib::group_to_multiset_ensures;

    let a = s.take(i);
    let b = s.skip(i);
    assert(s =~= a + b);
    assert(s.insert(i, x) =~= a.push(x) + b);
    vstd::seq_lib::lemma_multiset_commutative(a, b);
    vstd::seq_lib::lemma_multiset_commutative(a.push(x), b);
    assert(a.push(x).to_multiset() =~= a.to_multiset().insert(x));
    assert(s.insert(i, x).to_multiset() =~= s.to_multiset().insert(x));
}

// ---------------------------------------------------------------------------
// Budgets for a month
// ---------------------------------------------------------------------------

/// Every budget allocation is a non-negative magnitude.
pub open spec fn nonneg_budget_amounts(bs: Seq<BudgetRow>) -> bool {
    forall|i: int| 0 <= i < bs.len() ==> 0 <= #[trigger] bs[i].amount_cents
}

/// The budget report rows for `m`, in budget-row order: every budget
/// row of that month joined with the name of the first category that
/// carries its identifier, and with the month's expense total for
/// that category.  A budget whose category is missing is dropped; a
/// budget with no matching transactions reports zero spent.
pub open spec fn budget_rows_for(
    bs: Seq<BudgetRow>,
    cats: Seq<Category>,
    txs: Seq<TransactionRow>,
    m: Seq<char>,
) -> Seq<BudgetRecordV>
    decreases bs.len(),
{
    if bs.len() == 0 {
        Seq::<BudgetRecordV>::empty()
    } else {
        let rest = budget_rows_for(bs.drop_last(), cats, txs, m);
        let b = bs.last();
        if b.month@ == m && cat_name(cats, b.category_id) is Some {
            rest.push(
                BudgetRecordV {
                    id: b.id as int,
                    category_id: b.category_id as int,
                    category_name: cat_name(cats, b.category_id).unwrap(),
                    month: b.month@,
                    amount_cents: b.amount_cents as int,
                    spent_cents: sum_matching(txs, expense_for_category(b.category_id, m)),
                },
            )
        } else {
            rest
        }
    }
}

proof fn lemma_budget_rows_take_step(
    bs: Seq<BudgetRow>,
    cats: Seq<Category>,
    txs: Seq<TransactionRow>,
    m: Seq<char>,
    i: int,
)
    requires
        0 <= i < bs.len(),
    ensures
        budget_rows_for(bs.take(i + 1), cats, txs, m) == (if bs[i].month@ == m && cat_name(
            cats,
            bs[i].category_id,
        ) is Some {
            budget_rows_for(bs.take(i), cats, txs, m).push(
                BudgetRecordV {
                    id: bs[i].id as int,
                    category_id: bs[i].category_id as int,
                    category_name: cat_name(cats, bs[i].category_id).unwrap(),
                    month: bs[i].month@,
                    amount_cents: bs[i].amount_cents as int,
                    spent_cents: sum_matching(txs, expense_for_category(bs[i].category_id, m)),
                },
            )
        } else {
            budget_rows_for(bs.take(i), cats, txs, m)
        }),
{
    assert(bs.take(i + 1).drop_last() =~= bs.take(i));
}

/// In a month with no matching transactions, every budget row of
/// that month still reports, with zero spent rather than a missing
/// value.
pub proof fn lemma_no_activity_zero_spent(
    bs: Seq<BudgetRow>,
    cats: Seq<Category>,
    txs: Seq<TransactionRow>,
    m: Seq<char>,
)
    requires
        forall|x: int| 0 <= x < txs.len() ==> !in_month(#[trigger] txs[x].occurred_on@, m),
    ensures
        budget_rows_for(bs, cats, txs, m).len() == bs.filter(
            |b: BudgetRow| b.month@ == m && cat_name(cats, b.category_id) is Some,
        ).len(),
        forall|j: int|
            0 <= j < budget_rows_for(bs, cats, txs, m).len() ==> #[trigger] budget_rows_for(
                bs,
                cats,
                txs,
                m,
            )[j].spent_cents == 0,
    decreases bs.len(),
{
    reveal(Seq::filter);
    if bs.len() > 0 {
        lemma_no_activity_zero_spent(bs.drop_last(), cats, txs, m);
        let b = bs.last();
        if b.month@ == m && cat_name(cats, b.category_id) is Some {
            let p = expense_for_category(b.category_id, m);
            assert forall|x: int| 0 <= x < txs.len() implies !p(#[trigger] txs[x]) by {
                assert(!in_month(txs[x].occurred_on@, m));
            }
            lemma_sum_matching_none(txs, p);
        }
    }
}

/// The views of a list of budget records.
pub open spec fn budget_views(s: Seq<BudgetRecord>) -> Seq<BudgetRecordV> {
    s.map_values(|x: BudgetRecord| x@)
}

/// Ascending category-name order.
pub open spec fn sorted_by_category_name(s: Seq<BudgetRecordV>) -> bool {
    forall|i: int, j: int|
        0 <= i < j < s.len() ==> !lex_lt(#[trigger] s[j].category_name, #[trigger] s[i].category_name)
}

fn budget_pos(list: &Vec<BudgetRecord>, name: &str) -> (r: usize)
    requires
        sorted_by_category_name(budget_views(list@)),
    ensures
        r <= list@.len(),
        forall|j: int| 0 <= j < r ==> !lex_lt(name@, budget_views(list@)[j].category_name),
        forall|j: int| r <= j < list@.len() ==> lex_lt(name@, budget_views(list@)[j].category_name),
{
    let n = list.len();
    let mut i: usize = 0;
    while i < n
        invariant
            n == list@.len(),
            0 <= i <= n,
            sorted_by_category_name(budget_views(list@)),
            forall|j: int| 0 <= j < i ==> !lex_lt(name@, budget_views(list@)[j].category_name),
        decreases n - i,
    {
        if str_lex_lt(name, list[i].category_name.as_str()) {
            proof {
                let v = budget_views(list@);
                assert forall|j: int| i <= j < list@.len() implies lex_lt(
                    name@,
                    v[j].category_name,
                ) by {
                    if j > i {
                        lemma_lex_lt_le_trans(
                            name@,
                            v[i as int].category_name,
                            v[j].category_name,
                        );
                    }
                }
            }
            return i;
        }
        i = i + 1;
    }
    n
}

fn insert_budget_sorted(list: &mut Vec<BudgetRecord>, rec: BudgetRecord)
    requires
        sorted_by_category_name(budget_views(old(list)@)),
    ensures
        sorted_by_category_name(budget_views(final (list)@)),
        budget_views(final (list)@).to_multiset() == budget_views(old(list)@).to_multiset().insert(
            rec@,
        ),
{
    let pos = budget_pos(list, rec.category_name.as_str());
    let ghost v = budget_views(list@);
    let ghost rv = rec@;
    list.insert(pos, rec);
    proof {
        let v2 = budget_views(list@);
        assert(v2 =~= v.insert(pos as int, rv));
        let p = pos as int;
        assert forall|a: int, b: int| 0 <= a < b < v2.len() implies !lex_lt(
            v2[b].category_name,
            v2[a].category_name,
        ) by {
            if b < p {
            } else if a < p && b == p {
            } else if a < p && b > p {
            } else if a == p {
                assert(lex_lt(rv.category_name, v[b - 1].category_name));
                if lex_lt(v[b - 1].category_name, rv.category_name) {
                    lemma_lex_trans(
                        rv.category_name,
                        v[b - 1].category_name,
                        rv.category_name,
                    );
                    lemma_lex_irrefl(rv.category_name);
                }
            } else {
            }
        }
        lemma_to_multiset_insert(v, p, rv);
    }
}

/// The budgets of a month with their category names and month spend,
/// ordered by category name.  For every budget row matching `month`
/// there is one report row; a month with no matching transactions
/// reports zero spent everywhere.
pub fn list_budgets(
    budgets: &Vec<BudgetRow>,
    cats: &Vec<Category>,
    txs: &Vec<TransactionRow>,
    month: &str,
) -> (r: Vec<BudgetRecord>)
    requires
        nonneg_amounts(txs@),
        sum_amounts(txs@) <= i64::MAX,
    ensures
        budget_views(r@).to_multiset() == budget_rows_for(
            budgets@,
            cats@,
            txs@,
            month@,
        ).to_multiset(),
        sorted_by_category_name(budget_views(r@)),
{
    broadcast use vstd::seq_lib::group_to_multiset_ensures;

    let mut out: Vec<BudgetRecord> = Vec::new();
    proof {
        assert(budgets@.take(0) =~= Seq::<BudgetRow>::empty());
        assert(budget_views(out@) =~= Seq::<BudgetRecordV>::empty());
        assert(budget_views(out@).to_multiset() =~= budget_rows_for(
            budgets@.take(0),
            cats@,
            txs@,
            month@,
        ).to_multiset());
    }
    let mut i: usize = 0;
    while i < budgets.len()
        invariant
            nonneg_amounts(txs@),
            sum_amounts(txs@) <= i64::MAX,
            0 <= i <= budgets@.len(),
            sorted_by_category_name(budget_views(out@)),
            budget_views(out@).to_multiset() == budget_rows_for(
                budgets@.take(i as int),
                cats@,
                txs@,
                month@,
            ).to_multiset(),
        decreases budgets@.len() - i,
    {
        broadcast use vstd::seq_lib::group_to_multiset_ensures;

        let b = &budgets[i];
        proof {
            lemma_budget_rows_take_step(budgets@, cats@, txs@, month@, i as int);
        }
        if str_eq(b.month.as_str(), month) {
            match category_name_by_id(cats, b.category_id) {
                Some(name) => {
                    let spent = spent_for(txs, b.category_id, month);
                    let rec = BudgetRecord {
                        id: b.id,
                        category_id: b.category_id,
                        category_name: name,
                        month: b.month.clone(),
                        amount_cents: b.amount_cents,
                        spent_cents: spent,
                    };
                    proof {
                        assert(rec@.category_name == cat_name(cats@, b.category_id).unwrap());
                    }
                    insert_budget_sorted(&mut out, rec);
                },
                None => {},
            }
        }
        i = i + 1;
    }
    proof {
        assert(budgets@.take(budgets@.len() as int) =~= budgets@);
    }
    out
}

// ---------------------------------------------------------------------------
// Dashboard budgets
// ---------------------------------------------------------------------------

/// The dashboard budget rows for `m`, in budget-row order: like
/// [`budget_rows_for`], with the remainder computed as allocation
/// minus spend.
pub open spec fn dashboard_rows_for(
    bs: Seq<BudgetRow>,
    cats: Seq<Category>,
    txs: Seq<TransactionRow>,
    m: Seq<char>,
) -> Seq<DashboardBudgetV>
    decreases bs.len(),
{
    if bs.len() == 0 {
        Seq::<DashboardBudgetV>::empty()
    } else {
        let rest = dashboard_rows_for(bs.drop_last(), cats, txs, m);
        let b = bs.last();
        if b.month@ == m && cat_name(cats, b.category_id) is Some {
            let spent = sum_matching(txs, expense_for_category(b.category_id, m));
            rest.push(
                DashboardBudgetV {
                    category_name: cat_name(cats, b.category_id).unwrap(),
                    budget_cents: b.amount_cents as int,
                    spent_cents: spent,
                    remaining_cents: b.amount_cents - spent,
                },
            )
        } else {
            rest
        }
    }
}

proof fn lemma_dashboard_rows_take_step(
    bs: Seq<BudgetRow>,
    cats: Seq<Category>,
    txs: Seq<TransactionRow>,
    m: Seq<char>,
    i: int,
)
    requires
        0 <= i < bs.len(),
    ensures
        dashboard_rows_for(bs.take(i + 1), cats, txs, m) == (if bs[i].month@ == m && cat_name(
            cats,
            bs[i].category_id,
        ) is Some {
            dashboard_rows_for(bs.take(i), cats, txs, m).push(
                DashboardBudgetV {
                    category_name: cat_name(cats, bs[i].category_id).unwrap(),
                    budget_cents: bs[i].amount_cents as int,
                    spent_cents: sum_matching(txs, expense_for_category(bs[i].category_id, m)),
                    remaining_cents: bs[i].amount_cents - sum_matching(
                        txs,
                        expense_for_category(bs[i].category_id, m),
                    ),
                },
            )
        } else {
            dashboard_rows_for(bs.take(i), cats, txs, m)
        }),
{
    assert(bs.take(i + 1).drop_last() =~= bs.take(i));
}

/// The views of a list of dashboard budgets.
pub open spec fn dashboard_views(s: Seq<DashboardBudget>) -> Seq<DashboardBudgetV> {
    s.map_values(|x: DashboardBudget| x@)
}

/// Ascending category-name order for dashboard rows.
pub open spec fn sorted_by_dashboard_name(s: Seq<DashboardBudgetV>) -> bool {
    forall|i: int, j: int|
        0 <= i < j < s.len() ==> !lex_lt(#[trigger] s[j].category_name, #[trigger] s[i].category_name)
}

fn dashboard_pos(list: &Vec<DashboardBudget>, name: &str) -> (r: usize)
    requires
        sorted_by_dashboard_name(dashboard_views(list@)),
    ensures
        r <= list@.len(),
        forall|j: int| 0 <= j < r ==> !lex_lt(name@, dashboard_views(list@)[j].category_name),
        forall|j: int|
            r <= j < list@.len() ==> lex_lt(name@, dashboard_views(list@)[j].category_name),
{
    let n = list.len();
    let mut i: usize = 0;
    while i < n
        invariant
            n == list@.len(),
            0 <= i <= n,
            sorted_by_dashboard_name(dashboard_views(list@)),
            forall|j: int| 0 <= j < i ==> !lex_lt(name@, dashboard_views(list@)[j].category_name),
        decreases n - i,
    {
        if str_lex_lt(name, list[i].category_name.as_str()) {
            proof {
                let v = dashboard_views(list@);
                assert forall|j: int| i <= j < list@.len() implies lex_lt(
                    name@,
                    v[j].category_name,
                ) by {
                    if j > i {
                        lemma_lex_lt_le_trans(
                            name@,
                            v[i as int].category_name,
                            v[j].category_name,
                        );
                    }
                }
            }
            return i;
        }
        i = i + 1;
    }
    n
}

fn insert_dashboard_sorted(list: &mut Vec<DashboardBudget>, rec: DashboardBudget)
    requires
        sorted_by_dashboard_name(dashboard_views(old(list)@)),
    ensures
        sorted_by_dashboard_name(dashboard_views(final (list)@)),
        dashboard_views(final (list)@).to_multiset() == dashboard_views(
            old(list)@,
        ).to_multiset().insert(rec@),
{
    let pos = dashboard_pos(list, rec.category_name.as_str());
    let ghost v = dashboard_views(list@);
    let ghost rv = rec@;
    list.insert(pos, rec);
    proof {
        let v2 = dashboard_views(list@);
        assert(v2 =~= v.insert(pos as int, rv));
        let p = pos as int;
        assert forall|a: int, b: int| 0 <= a < b < v2.len() implies !lex_lt(
            v2[b].category_name,
            v2[a].category_name,
        ) by {
            if b < p {
            } else if a < p && b == p {
            } else if a < p && b > p {
            } else if a == p {
                assert(lex_lt(rv.category_name, v[b - 1].category_name));
                if lex_lt(v[b - 1].category_name, rv.category_name) {
                    lemma_lex_trans(
                        rv.category_name,
                        v[b - 1].category_name,
                        rv.category_name,
                    );
                    lemma_lex_irrefl(rv.category_name);
                }
            } else {
            }
        }
        lemma_to_multiset_insert(v, p, rv);
    }
}

/// The dashboard's budget lines for a month, ordered by category
/// name: allocation, spend so far and the remainder.
pub fn dashboard_budgets(
    budgets: &Vec<BudgetRow>,
    cats: &Vec<Category>,
    txs: &Vec<TransactionRow>,
    month: &str,
) -> (r: Vec<DashboardBudget>)
    requires
        nonneg_amounts(txs@),
        sum_amounts(txs@) <= i64::MAX,
        nonneg_budget_amounts(budgets@),
    ensures
        dashboard_views(r@).to_multiset() == dashboard_rows_for(
            budgets@,
            cats@,
            txs@,
            month@,
        ).to_multiset(),
        sorted_by_dashboard_name(dashboard_views(r@)),
{
    broadcast use vstd::seq_lib::group_to_multiset_ensures;

    let mut out: Vec<DashboardBudget> = Vec::new();
    proof {
        assert(budgets@.take(0) =~= Seq::<BudgetRow>::empty());
        assert(dashboard_views(out@) =~= Seq::<DashboardBudgetV>::empty());
        assert(dashboard_views(out@).to_multiset() =~= dashboard_rows_for(
            budgets@.take(0),
            cats@,
            txs@,
            month@,
        ).to_multiset());
    }
    let mut i: usize = 0;
    while i < budgets.len()
        invariant
            nonneg_amounts(txs@),
            sum_amounts(txs@) <= i64::MAX,
            nonneg_budget_amounts(budgets@),
            0 <= i <= budgets@.len(),
            sorted_by_dashboard_name(dashboard_views(out@)),
            dashboard_views(out@).to_multiset() == dashboard_rows_for(
                budgets@.take(i as int),
                cats@,
                txs@,
                month@,
            ).to_multiset(),
        decreases budgets@.len() - i,
    {
        broadcast use vstd::seq_lib::group_to_multiset_ensures;

        let b = &budgets[i];
        proof {
            lemma_dashboard_rows_take_step(budgets@, cats@, txs@, month@, i as int);
        }
        if str_eq(b.month.as_str(), month) {
            match category_name_by_id(cats, b.category_id) {
                Some(name) => {
                    let spent = spent_for(txs, b.category_id, month);
                    let rec = DashboardBudget {
                        category_name: name,
                        budget_cents: b.amount_cents,
                        spent_cents: spent,
                        remaining_cents: b.amount_cents - spent,
                    };
                    insert_dashboard_sorted(&mut out, rec);
                },
                None => {},
            }
        }
        i = i + 1;
    }
    proof {
        assert(budgets@.take(budgets@.len() as int) =~= budgets@);
    }
    out
}

// ---------------------------------------------------------------------------
// Months with recorded activity
// ---------------------------------------------------------------------------

/// The distinct months transactions fall into, by [`month_key`].
pub open spec fn tx_month_keys(ts: Seq<TransactionRow>) -> Set<Seq<char>> {
    ts.map_values(|t: TransactionRow| month_key(t.occurred_on@)).to_set()
}

/// The distinct months budget rows name.
pub open spec fn budget_month_keys(bs: Seq<BudgetRow>) -> Set<Seq<char>> {
    bs.map_values(|b: BudgetRow| b.month@).to_set()
}

/// The most recent `limit` members of a set of months: sorted
/// strictly descending, each a member, missing members only beyond
/// the cap and all older than what is kept.
pub open spec fn recent_months_of(r: Seq<Seq<char>>, keys: Set<Seq<char>>, limit: int) -> bool {
    &&& sorted_desc(r)
    &&& r.len() <= limit
    &&& (forall|j: int| 0 <= j < r.len() ==> keys.contains(#[trigger] r[j]))
    &&& (forall|k: Seq<char>|
        keys.contains(k) && !r.contains(k) ==> (forall|j: int|
            0 <= j < r.len() ==> lex_lt(k, #[trigger] r[j])))
    &&& (r.len() < limit ==> (forall|k: Seq<char>| keys.contains(k) ==> r.contains(k)))
}

/// Truncates a strictly descending month list to its most recent
/// `limit` entries and carries the set facts over.
fn keep_recent(list: &mut Vec<String>, limit: usize, Ghost(keys): Ghost<Set<Seq<char>>>)
    requires
        sorted_desc(month_views(old(list)@)),
        month_views(old(list)@).to_set() == keys,
    ensures
        recent_months_of(month_views(final (list)@), keys, limit as int),
{
    let ghost orig = month_views(list@);
    list.truncate(limit);
    proof {
        let cur = month_views(list@);
        if limit <= orig.len() {
            assert(cur =~= orig.take(limit as int));
        } else {
            assert(cur =~= orig);
        }
        assert forall|j: int| 0 <= j < cur.len() implies keys.contains(#[trigger] cur[j]) by {
            assert(cur[j] == orig[j]);
            assert(orig.contains(orig[j]));
        }
        assert forall|k: Seq<char>| keys.contains(k) && !cur.contains(k) implies (forall|j: int|
            0 <= j < cur.len() ==> lex_lt(k, #[trigger] cur[j])) by {
            assert(orig.contains(k));
            let jk = choose|jk: int| 0 <= jk < orig.len() && orig[jk] == k;
            if jk < cur.len() {
                assert(cur[jk] == k);
            }
            assert forall|j: int| 0 <= j < cur.len() implies lex_lt(k, #[trigger] cur[j]) by {
                assert(orig[jk] == k && j < jk);
            }
        }
        if cur.len() < limit {
            assert(cur =~= orig);
            assert forall|k: Seq<char>| keys.contains(k) implies cur.contains(k) by {
                assert(orig.contains(k));
            }
        }
    }
}

/// The distinct months with recorded transactions, most recent
/// first, capped at the `limit` most recent.
pub fn list_months(txs: &Vec<TransactionRow>, limit: usize) -> (r: Vec<String>)
    ensures
        recent_months_of(month_views(r@), tx_month_keys(txs@), limit as int),
{
    let ghost keyseq = txs@.map_values(|t: TransactionRow| month_key(t.occurred_on@));
    let mut out: Vec<String> = Vec::new();
    proof {
        assert(month_views(out@) =~= Seq::<Seq<char>>::empty());
        assert(keyseq.take(0) =~= Seq::<Seq<char>>::empty());
        assert(month_views(out@).to_set() =~= keyseq.take(0).to_set());
    }
    let mut i: usize = 0;
    while i < txs.len()
        invariant
            keyseq == txs@.map_values(|t: TransactionRow| month_key(t.occurred_on@)),
            0 <= i <= txs@.len(),
            sorted_desc(month_views(out@)),
            month_views(out@).to_set() == keyseq.take(i as int).to_set(),
        decreases txs@.len() - i,
    {
        let m = month_of(txs[i].occurred_on.as_str());
        proof {
            assert(keyseq.take(i + 1) =~= keyseq.take(i as int).push(keyseq[i as int]));
            lemma_push_to_set(keyseq.take(i as int), keyseq[i as int]);
        }
        insert_month(&mut out, m);
        i = i + 1;
    }
    proof {
        assert(keyseq.take(keyseq.len() as int) =~= keyseq);
    }
    keep_recent(&mut out, limit, Ghost(tx_month_keys(txs@)));
    out
}

/// The distinct months with budget rows, most recent first, capped
/// at the `limit` most recent.
pub fn list_budget_months(budgets: &Vec<BudgetRow>, limit: usize) -> (r: Vec<String>)
    ensures
        recent_months_of(month_views(r@), budget_month_keys(budgets@), limit as int),
{
    let ghost keyseq = budgets@.map_values(|b: BudgetRow| b.month@);
    let mut out: Vec<String> = Vec::new();
    proof {
        assert(month_views(out@) =~= Seq::<Seq<char>>::empty());
        assert(keyseq.take(0) =~= Seq::<Seq<char>>::empty());
        assert(month_views(out@).to_set() =~= keyseq.take(0).to_set());
    }
    let mut i: usize = 0;
    while i < budgets.len()
        invariant
            keyseq == budgets@.map_values(|b: BudgetRow| b.month@),
            0 <= i <= budgets@.len(),
            sorted_desc(month_views(out@)),
            month_views(out@).to_set() == keyseq.take(i as int).to_set(),
        decreases budgets@.len() - i,
    {
        let m = String::from_str(budgets[i].month.as_str());
        proof {
            assert(keyseq.take(i + 1) =~= keyseq.take(i as int).push(keyseq[i as int]));
            lemma_push_to_set(keyseq.take(i as int), keyseq[i as int]);
        }
        insert_month(&mut out, m);
        i = i + 1;
    }
    proof {
        assert(keyseq.take(keyseq.len() as int) =~= keyseq);
    }
    keep_recent(&mut out, limit, Ghost(budget_month_keys(budgets@)));
    out
}

// ---------------------------------------------------------------------------
// Month-over-month report
// ---------------------------------------------------------------------------

/// Income and expense totals grouped by [`month_key`] rather than by
/// an explicit month filter.
pub fn month_key_totals(txs: &Vec<TransactionRow>, month: &str) -> (r: (i64, i64))
    requires
        nonneg_amounts(txs@),
        sum_amounts(txs@) <= i64::MAX,
    ensures
        r.0 == sum_matching(txs@, kind_in_key_month("income"@, month@)),
        r.1 == sum_matching(txs@, kind_in_key_month("expense"@, month@)),
        0 <= r.0 <= sum_amounts(txs@),
        0 <= r.1 <= sum_amounts(txs@),
{
    let ghost pin = kind_in_key_month("income"@, month@);
    let ghost pex = kind_in_key_month("expense"@, month@);
    proof {
        lemma_sum_matching_bounds(txs@, pin);
        lemma_sum_matching_bounds(txs@, pex);
    }
    let mut income: i64 = 0;
    let mut expense: i64 = 0;
    let mut i: usize = 0;
    while i < txs.len()
        invariant
            nonneg_amounts(txs@),
            sum_amounts(txs@) <= i64::MAX,
            pin == kind_in_key_month("income"@, month@),
            pex == kind_in_key_month("expense"@, month@),
            0 <= i <= txs@.len(),
            income == sum_matching(txs@.take(i as int), pin),
            expense == sum_matching(txs@.take(i as int), pex),
            0 <= income <= sum_amounts(txs@),
            0 <= expense <= sum_amounts(txs@),
        decreases txs@.len() - i,
    {
        let t = &txs[i];
        let is_inc = str_eq(t.kind.as_str(), "income");
        let is_exp = str_eq(t.kind.as_str(), "expense");
        let key = month_of(t.occurred_on.as_str());
        let in_m = str_eq(key.as_str(), month);
        proof {
            lemma_sum_matching_take_step(txs@, pin, i as int);
            lemma_sum_matching_take_step(txs@, pex, i as int);
            assert(nonneg_amounts(txs@.take(i + 1)));
            lemma_sum_matching_bounds(txs@.take(i + 1), pin);
            lemma_sum_matching_bounds(txs@.take(i + 1), pex);
            lemma_sum_amounts_prefix_le(txs@, i + 1);
        }
        if is_inc && in_m {
            income = income + t.amount_cents;
        }
        if is_exp && in_m {
            expense = expense + t.amount_cents;
        }
        i = i + 1;
    }
    proof {
        assert(txs@.take(txs@.len() as int) =~= txs@);
    }
    (income, expense)
}

/// The months of a month-over-month report.
pub open spec fn report_month_tokens(s: Seq<ReportMonth>) -> Seq<Seq<char>> {
    s.map_values(|x: ReportMonth| x.month@)
}

/// One row per distinct month observed in transaction history, most
/// recent first and capped at `limit` rows: income and expense sums
/// for the month, and their difference as the net.
pub fn report_months(txs: &Vec<TransactionRow>, limit: usize) -> (r: Vec<ReportMonth>)
    requires
        nonneg_amounts(txs@),
        sum_amounts(txs@) <= i64::MAX,
    ensures
        recent_months_of(report_month_tokens(r@), tx_month_keys(txs@), limit as int),
        forall|j: int|
            0 <= j < r@.len() ==> ({
                let v = #[trigger] r@[j]@;
                v.income_cents == sum_matching(txs@, kind_in_key_month("income"@, v.month))
                    && v.expense_cents == sum_matching(txs@, kind_in_key_month("expense"@, v.month))
                    && v.net_cents == v.income_cents - v.expense_cents
            }),
{
    let months = list_months(txs, limit);
    let mut out: Vec<ReportMonth> = Vec::new();
    proof {
        assert(report_month_tokens(out@) =~= Seq::<Seq<char>>::empty());
        assert(month_views(months@).take(0) =~= Seq::<Seq<char>>::empty());
    }
    let mut i: usize = 0;
    while i < months.len()
        invariant
            nonneg_amounts(txs@),
            sum_amounts(txs@) <= i64::MAX,
            0 <= i <= months@.len(),
            out@.len() == i,
            report_month_tokens(out@) == month_views(months@).take(i as int),
            forall|j: int|
                0 <= j < out@.len() ==> ({
                    let v = #[trigger] out@[j]@;
                    v.income_cents == sum_matching(txs@, kind_in_key_month("income"@, v.month))
                        && v.expense_cents == sum_matching(
                        txs@,
                        kind_in_key_month("expense"@, v.month),
                    ) && v.net_cents == v.income_cents - v.expense_cents
                }),
        decreases months@.len() - i,
    {
        let m = &months[i];
        let (income, expense) = month_key_totals(txs, m.as_str());
        let row = ReportMonth {
            month: m.clone(),
            income_cents: income,
            expense_cents: expense,
            net_cents: income - expense,
        };
        out.push(row);
        proof {
            assert(report_month_tokens(out@) =~= month_views(months@).take(i + 1));
        }
        i = i + 1;
    }
    proof {
        assert(month_views(months@).take(months@.len() as int) =~= month_views(months@));
        assert(report_month_tokens(out@) == month_views(months@));
    }
    out
}

// ---------------------------------------------------------------------------
// Ranked category expenses
// ---------------------------------------------------------------------------

/// The category name a transaction resolves to, if any.
pub open spec fn tx_resolved_name(cats: Seq<Category>, t: TransactionRow) -> Option<Seq<char>> {
    match t.category_id {
        Some(id) => cat_name(cats, id),
        None => None,
    }
}

/// Expense transactions in month `m` that resolve to category name
/// `n`.
pub open spec fn expense_named(cats: Seq<Category>, m: Seq<char>, n: Seq<char>) -> spec_fn(
    TransactionRow,
) -> bool {
    |t: TransactionRow|
        t.kind@ == "expense"@ && in_month(t.occurred_on@, m) && tx_resolved_name(cats, t) == Some(n)
}

/// Expense transactions in month `m` that resolve to some category.
pub open spec fn counted_expense(cats: Seq<Category>, m: Seq<char>) -> spec_fn(
    TransactionRow,
) -> bool {
    |t: TransactionRow|
        t.kind@ == "expense"@ && in_month(t.occurred_on@, m) && tx_resolved_name(cats, t) is Some
}

proof fn lemma_sum_matching_none(ts: Seq<TransactionRow>, p: spec_fn(TransactionRow) -> bool)
    requires
        forall|x: int| 0 <= x < ts.len() ==> !p(#[trigger] ts[x]),
    ensures
        sum_matching(ts, p) == 0,
    decreases ts.len(),
{
    if ts.len() > 0 {
        lemma_sum_matching_none(ts.drop_last(), p);
    }
}

/// The views of a category report.
pub open spec fn report_cat_views(s: Seq<ReportCategory>) -> Seq<ReportCategoryV> {
    s.map_values(|x: ReportCategory| x@)
}

/// Descending expense order.
pub open spec fn sorted_by_expense_desc(s: Seq<ReportCategoryV>) -> bool {
    forall|i: int, j: int|
        0 <= i < j < s.len() ==> #[trigger] s[j].expense_cents <= #[trigger] s[i].expense_cents
}

fn find_name_row(list: &Vec<ReportCategory>, name: &str) -> (r: Option<usize>)
    ensures
        (match r {
            Some(j) => j < list@.len() && list@[j as int]@.category_name == name@,
            None => forall|j: int| 0 <= j < list@.len() ==> list@[j]@.category_name != name@,
        }),
{
    let mut i: usize = 0;
    while i < list.len()
        invariant
            0 <= i <= list@.len(),
            forall|j: int| 0 <= j < i ==> list@[j]@.category_name != name@,
        decreases list@.len() - i,
    {
        if str_eq(list[i].category_name.as_str(), name) {
            return Some(i);
        }
        i = i + 1;
    }
    None
}

fn expense_pos(list: &Vec<ReportCategory>, amount: i64) -> (r: usize)
    requires
        sorted_by_expense_desc(report_cat_views(list@)),
    ensures
        r <= list@.len(),
        forall|j: int| 0 <= j < r ==> amount <= list@[j]@.expense_cents,
        forall|j: int| r <= j < list@.len() ==> list@[j]@.expense_cents < amount,
{
    let n = list.len();
    let mut i: usize = 0;
    while i < n && list[i].expense_cents >= amount
        invariant
            n == list@.len(),
            0 <= i <= n,
            sorted_by_expense_desc(report_cat_views(list@)),
            forall|j: int| 0 <= j < i ==> amount <= list@[j]@.expense_cents,
        decreases n - i,
    {
        i = i + 1;
    }
    proof {
        if i < n {
            assert forall|j: int| i <= j < list@.len() implies list@[j]@.expense_cents
                < amount by {
                if j > i {
                    assert(report_cat_views(list@)[j].expense_cents <= report_cat_views(
                        list@,
                    )[i as int].expense_cents);
                }
            }
        }
    }
    i
}

/// The rows of `work` each carry the expense total, over the first
/// `upto` transactions, of their category name, with at least one
/// contributing transaction.
pub open spec fn groups_ok(
    work: Seq<ReportCategory>,
    txs: Seq<TransactionRow>,
    upto: int,
    cats: Seq<Category>,
    m: Seq<char>,
) -> bool {
    forall|j: int|
        0 <= j < work.len() ==> ({
            let v = #[trigger] work[j]@;
            v.expense_cents == sum_matching(txs.take(upto), expense_named(cats, m, v.category_name))
                && (exists|x: int| 0 <= x < upto && expense_named(cats, m, v.category_name)(txs[x]))
        })
}

/// No two rows share a category name.
pub open spec fn names_distinct(work: Seq<ReportCategory>) -> bool {
    forall|a: int, b: int|
        0 <= a < b < work.len() ==> #[trigger] work[a]@.category_name != #[trigger] work[b]@.category_name
}

/// Every counted expense among the first `upto` transactions has a
/// row for its category name.
pub open spec fn groups_complete(
    work: Seq<ReportCategory>,
    txs: Seq<TransactionRow>,
    upto: int,
    cats: Seq<Category>,
    m: Seq<char>,
) -> bool {
    forall|x: int|
        0 <= x < upto && counted_expense(cats, m)(#[trigger] txs[x]) ==> (exists|j: int|
            0 <= j < work.len() && work[j]@.category_name == tx_resolved_name(cats, txs[x]).unwrap())
}

fn absorb_tx(
    work: &mut Vec<ReportCategory>,
    txs: &Vec<TransactionRow>,
    cats: &Vec<Category>,
    month: &str,
    i: usize,
)
    requires
        nonneg_amounts(txs@),
        sum_amounts(txs@) <= i64::MAX,
        i < txs@.len(),
        groups_ok(old(work)@, txs@, i as int, cats@, month@),
        names_distinct(old(work)@),
        groups_complete(old(work)@, txs@, i as int, cats@, month@),
    ensures
        groups_ok(final (work)@, txs@, i + 1, cats@, month@),
        names_distinct(final (work)@),
        groups_complete(final (work)@, txs@, i + 1, cats@, month@),
{
    let t = &txs[i];
    let is_exp = str_eq(t.kind.as_str(), "expense");
    let in_m = occurs_in_month(t.occurred_on.as_str(), month);
    let mut resolved: Option<String> = None;
    if is_exp && in_m {
        resolved = match t.category_id {
            Some(id) => category_name_by_id(cats, id),
            None => None,
        };
    }
    match resolved {
        Some(nm) => {
            proof {
                assert(tx_resolved_name(cats@, txs@[i as int]) == Some(nm@));
                assert(expense_named(cats@, month@, nm@)(txs@[i as int]));
            }
            match find_name_row(work, nm.as_str()) {
                Some(j) => {
                    let ghost n = work@[j as int]@.category_name;
                    let ghost p = expense_named(cats@, month@, n);
                    proof {
                        lemma_sum_matching_take_step(txs@, p, i as int);
                        assert(nonneg_amounts(txs@.take(i + 1)));
                        lemma_sum_matching_bounds(txs@.take(i + 1), p);
                        lemma_sum_amounts_prefix_le(txs@, i + 1);
                    }
                    let updated = ReportCategory {
                        category_name: work[j].category_name.clone(),
                        expense_cents: work[j].expense_cents + t.amount_cents,
                    };
                    let ghost work0 = work@;
                    work.set(j, updated);
                    proof {
                        assert(work@[j as int]@.category_name == nm@);
                        assert(forall|jj: int|
                            0 <= jj < work@.len() ==> #[trigger] work@[jj]@.category_name
                                == work0[jj]@.category_name);
                        assert forall|jj: int| 0 <= jj < work@.len() implies ({
                            let v = #[trigger] work@[jj]@;
                            v.expense_cents == sum_matching(
                                txs@.take(i + 1),
                                expense_named(cats@, month@, v.category_name),
                            ) && (exists|x: int|
                                0 <= x < i + 1 && expense_named(cats@, month@, v.category_name)(
                                    txs@[x],
                                ))
                        }) by {
                            let v = work@[jj]@;
                            lemma_sum_matching_take_step(
                                txs@,
                                expense_named(cats@, month@, v.category_name),
                                i as int,
                            );
                            if jj != j {
                                assert(v == work0[jj]@);
                                assert(v.category_name != n);
                                assert(!expense_named(cats@, month@, v.category_name)(
                                    txs@[i as int],
                                ));
                            }
                        }
                        assert forall|x: int|
                            0 <= x < i + 1 && counted_expense(cats@, month@)(
                                #[trigger] txs@[x],
                            ) implies (exists|jj: int|
                            0 <= jj < work@.len() && work@[jj]@.category_name == tx_resolved_name(
                                cats@,
                                txs@[x],
                            ).unwrap()) by {
                            if x == i {
                                assert(work@[j as int]@.category_name == tx_resolved_name(
                                    cats@,
                                    txs@[x],
                                ).unwrap());
                            } else {
                                let jj = choose|jj: int|
                                    0 <= jj < work0.len() && work0[jj]@.category_name
                                        == tx_resolved_name(cats@, txs@[x]).unwrap();
                                assert(work@[jj]@.category_name == tx_resolved_name(
                                    cats@,
                                    txs@[x],
                                ).unwrap());
                            }
                        }
                    }
                },
                None => {
                    let ghost p = expense_named(cats@, month@, nm@);
                    proof {
                        assert forall|x: int| 0 <= x < i implies !p(#[trigger] txs@[x]) by {
                            if p(txs@[x]) {
                                assert(counted_expense(cats@, month@)(txs@[x]));
                                assert(tx_resolved_name(cats@, txs@[x]).unwrap() == nm@);
                            }
                        }
                        assert forall|x: int| 0 <= x < i implies !p(
                            #[trigger] txs@.take(i as int)[x],
                        ) by {
                            assert(txs@.take(i as int)[x] == txs@[x]);
                        }
                        lemma_sum_matching_none(txs@.take(i as int), p);
                        lemma_sum_matching_take_step(txs@, p, i as int);
                        assert(nonneg_amounts(txs@.take(i + 1)));
                        lemma_sum_matching_bounds(txs@.take(i + 1), p);
                        lemma_sum_amounts_prefix_le(txs@, i + 1);
                    }
                    let row = ReportCategory { category_name: nm, expense_cents: t.amount_cents };
                    let ghost work0 = work@;
                    work.push(row);
                    proof {
                        assert(work@[work@.len() - 1]@.category_name == tx_resolved_name(
                            cats@,
                            txs@[i as int],
                        ).unwrap());
                        assert(forall|jj: int|
                            0 <= jj < work0.len() ==> #[trigger] work@[jj]@.category_name
                                == work0[jj]@.category_name);
                        assert forall|jj: int| 0 <= jj < work@.len() implies ({
                            let v = #[trigger] work@[jj]@;
                            v.expense_cents == sum_matching(
                                txs@.take(i + 1),
                                expense_named(cats@, month@, v.category_name),
                            ) && (exists|x: int|
                                0 <= x < i + 1 && expense_named(cats@, month@, v.category_name)(
                                    txs@[x],
                                ))
                        }) by {
                            let v = work@[jj]@;
                            lemma_sum_matching_take_step(
                                txs@,
                                expense_named(cats@, month@, v.category_name),
                                i as int,
                            );
                            if jj < work@.len() - 1 {
                                assert(v == work0[jj]@);
                                assert(v.category_name != nm@);
                                assert(!expense_named(cats@, month@, v.category_name)(
                                    txs@[i as int],
                                ));
                            }
                        }
                        assert forall|x: int|
                            0 <= x < i + 1 && counted_expense(cats@, month@)(
                                #[trigger] txs@[x],
                            ) implies (exists|jj: int|
                            0 <= jj < work@.len() && work@[jj]@.category_name == tx_resolved_name(
                                cats@,
                                txs@[x],
                            ).unwrap()) by {
                            if x < i {
                                let jj = choose|jj: int|
                                    0 <= jj < work0.len() && work0[jj]@.category_name
                                        == tx_resolved_name(cats@, txs@[x]).unwrap();
                                assert(work@[jj]@.category_name == tx_resolved_name(
                                    cats@,
                                    txs@[x],
                                ).unwrap());
                            }
                        }
                    }
                },
            }
        },
        None => {
            proof {
                assert(!counted_expense(cats@, month@)(txs@[i as int]));
                assert forall|jj: int| 0 <= jj < work@.len() implies ({
                    let v = #[trigger] work@[jj]@;
                    v.expense_cents == sum_matching(
                        txs@.take(i + 1),
                        expense_named(cats@, month@, v.category_name),
                    ) && (exists|x: int|
                        0 <= x < i + 1 && expense_named(cats@, month@, v.category_name)(txs@[x]))
                }) by {
                    let v = work@[jj]@;
                    lemma_sum_matching_take_step(
                        txs@,
                        expense_named(cats@, month@, v.category_name),
                        i as int,
                    );
                    assert(!expense_named(cats@, month@, v.category_name)(txs@[i as int]));
                }
            }
        },
    }
}

/// Expense totals of a month by category, one row per distinct
/// category name with at least one matching transaction, ordered by
/// descending expense.
pub fn report_categories(txs: &Vec<TransactionRow>, cats: &Vec<Category>, month: &str) -> (r: Vec<
    ReportCategory,
>)
    requires
        nonneg_amounts(txs@),
        sum_amounts(txs@) <= i64::MAX,
    ensures
        groups_ok(r@, txs@, txs@.len() as int, cats@, month@),
        names_distinct(r@),
        groups_complete(r@, txs@, txs@.len() as int, cats@, month@),
        sorted_by_expense_desc(report_cat_views(r@)),
{
    let mut work: Vec<ReportCategory> = Vec::new();
    let mut i: usize = 0;
    while i < txs.len()
        invariant
            nonneg_amounts(txs@),
            sum_amounts(txs@) <= i64::MAX,
            0 <= i <= txs@.len(),
            groups_ok(work@, txs@, i as int, cats@, month@),
            names_distinct(work@),
            groups_complete(work@, txs@, i as int, cats@, month@),
        decreases txs@.len() - i,
    {
        absorb_tx(&mut work, txs, cats, month, i);
        i = i + 1;
    }
    proof {
        assert(txs@.take(txs@.len() as int) =~= txs@);
    }
    // Rank the groups by descending expense.
    let mut out: Vec<ReportCategory> = Vec::new();
    while work.len() > 0
        invariant
            forall|j: int|
                0 <= j < out@.len() ==> ({
                    let v = #[trigger] out@[j]@;
                    v.expense_cents == sum_matching(
                        txs@,
                        expense_named(cats@, month@, v.category_name),
                    ) && (exists|x: int|
                        0 <= x < txs@.len() && expense_named(cats@, month@, v.category_name)(
                            txs@[x],
                        ))
                }),
            forall|j: int|
                0 <= j < work@.len() ==> ({
                    let v = #[trigger] work@[j]@;
                    v.expense_cents == sum_matching(
                        txs@,
                        expense_named(cats@, month@, v.category_name),
                    ) && (exists|x: int|
                        0 <= x < txs@.len() && expense_named(cats@, month@, v.category_name)(
                            txs@[x],
                        ))
                }),
            forall|a: int, b: int|
                0 <= a < b < out@.len() ==> out@[a]@.category_name != out@[b]@.category_name,
            forall|a: int, b: int|
                0 <= a < b < work@.len() ==> work@[a]@.category_name != work@[b]@.category_name,
            forall|a: int, b: int|
                0 <= a < out@.len() && 0 <= b < work@.len() ==> out@[a]@.category_name
                    != work@[b]@.category_name,
            forall|x: int|
                0 <= x < txs@.len() && counted_expense(cats@, month@)(txs@[x]) ==> ({
                    let nm = tx_resolved_name(cats@, txs@[x]).unwrap();
                    (exists|j: int| 0 <= j < out@.len() && out@[j]@.category_name == nm) || (
                    exists|j: int| 0 <= j < work@.len() && work@[j]@.category_name == nm)
                }),
            sorted_by_expense_desc(report_cat_views(out@)),
        decreases work@.len(),
    {
        let ghost work0 = work@;
        let row = work.pop().unwrap();
        proof {
            assert(work0[work0.len() - 1] == row);
        }
        let pos = expense_pos(&out, row.expense_cents);
        let ghost out0 = out@;
        out.insert(pos, row);
        proof {
            let p = pos as int;
            assert(out@ =~= out0.insert(p, row));
            let v2 = report_cat_views(out@);
            let v0 = report_cat_views(out0);
            assert forall|a: int, b: int| 0 <= a < b < v2.len() implies v2[b].expense_cents
                <= v2[a].expense_cents by {
                if b < p {
                    assert(v2[a] == v0[a] && v2[b] == v0[b]);
                } else if a < p && b == p {
                    assert(v2[a] == v0[a]);
                    assert(v2[b] == row@);
                    assert(row@.expense_cents <= out0[a]@.expense_cents);
                } else if a < p && b > p {
                    assert(v2[a] == v0[a] && v2[b] == v0[b - 1]);
                    assert(v0[b - 1].expense_cents <= v0[a].expense_cents);
                } else if a == p {
                    assert(v2[a] == row@);
                    assert(v2[b] == v0[b - 1]);
                    assert(out0[b - 1]@.expense_cents < row@.expense_cents);
                } else {
                    assert(v2[a] == v0[a - 1] && v2[b] == v0[b - 1]);
                }
            }
            assert forall|x: int|
                0 <= x < txs@.len() && counted_expense(cats@, month@)(
                    #[trigger] txs@[x],
                ) implies ({
                let nm = tx_resolved_name(cats@, txs@[x]).unwrap();
                (exists|j: int| 0 <= j < out@.len() && out@[j]@.category_name == nm) || (exists|
                    j: int,
                |
                    0 <= j < work@.len() && work@[j]@.category_name == nm)
            }) by {
                let nm = tx_resolved_name(cats@, txs@[x]).unwrap();
                if exists|j: int| 0 <= j < out0.len() && out0[j]@.category_name == nm {
                    let j = choose|j: int| 0 <= j < out0.len() && out0[j]@.category_name == nm;
                    if j < p {
                        assert(out@[j]@.category_name == nm);
                    } else {
                        assert(out@[j + 1]@.category_name == nm);
                    }
                } else if exists|j: int|
                    0 <= j < work0.len() && work0[j]@.category_name == nm {
                    let j = choose|j: int|
                        0 <= j < work0.len() && work0[j]@.category_name == nm;
                    if j == work0.len() - 1 {
                        assert(out@[p]@.category_name == nm);
                    } else {
                        assert(work@[j]@.category_name == nm);
                    }
                }
            }
        }
    }
    out
}

// ---------------------------------------------------------------------------
// The category list
// ---------------------------------------------------------------------------

/// Display order of categories: by kind, then by name.
pub open spec fn cat_le(a: crate::models::CategoryV, b: crate::models::CategoryV) -> bool {
    lex_lt(a.kind, b.kind) || (a.kind == b.kind && !lex_lt(b.name, a.name))
}

proof fn lemma_cat_le_total(a: crate::models::CategoryV, b: crate::models::CategoryV)
    ensures
        cat_le(a, b) || cat_le(b, a),
{
    if !lex_lt(a.kind, b.kind) && !lex_lt(b.kind, a.kind) {
        crate::text::lemma_lex_connected(a.kind, b.kind);
        if lex_lt(b.name, a.name) && lex_lt(a.name, b.name) {
            lemma_lex_trans(a.name, b.name, a.name);
            lemma_lex_irrefl(a.name);
        }
    }
}

proof fn lemma_cat_le_trans(
    a: crate::models::CategoryV,
    b: crate::models::CategoryV,
    c: crate::models::CategoryV,
)
    requires
        cat_le(a, b),
        cat_le(b, c),
    ensures
        cat_le(a, c),
{
    if lex_lt(a.kind, b.kind) && lex_lt(b.kind, c.kind) {
        lemma_lex_trans(a.kind, b.kind, c.kind);
    }
    if a.kind == b.kind && b.kind == c.kind {
        if lex_lt(c.name, a.name) {
            if lex_lt(a.name, b.name) {
                lemma_lex_trans(c.name, a.name, b.name);
            } else if lex_lt(b.name, a.name) {
            } else {
                crate::text::lemma_lex_connected(a.name, b.name);
            }
        }
    }
}

/// Ascending [`cat_le`] order.
pub open spec fn sorted_categories(s: Seq<Category>) -> bool {
    forall|i: int, j: int| 0 <= i < j < s.len() ==> cat_le(#[trigger] s[i]@, #[trigger] s[j]@)
}

fn cat_le_exec(a: &Category, b: &Category) -> (r: bool)
    ensures
        r == cat_le(a@, b@),
{
    if str_lex_lt(a.kind.as_str(), b.kind.as_str()) {
        return true;
    }
    if str_lex_lt(b.kind.as_str(), a.kind.as_str()) {
        return false;
    }
    proof {
        crate::text::lemma_lex_connected(a@.kind, b@.kind);
    }
    let r = !str_lex_lt(b.name.as_str(), a.name.as_str());
    r
}

fn clone_category(c: &Category) -> (r: Category)
    ensures
        r == *c,
{
    Category { id: c.id, name: c.name.clone(), kind: c.kind.clone() }
}

fn category_pos(list: &Vec<Category>, c: &Category) -> (r: usize)
    requires
        sorted_categories(list@),
    ensures
        r <= list@.len(),
        forall|j: int| 0 <= j < r ==> cat_le(#[trigger] list@[j]@, c@),
        forall|j: int| r <= j < list@.len() ==> !cat_le(#[trigger] list@[j]@, c@),
{
    let n = list.len();
    let mut i: usize = 0;
    while i < n
        invariant
            n == list@.len(),
            0 <= i <= n,
            sorted_categories(list@),
            forall|j: int| 0 <= j < i ==> cat_le(#[trigger] list@[j]@, c@),
        decreases n - i,
    {
        if !cat_le_exec(&list[i], c) {
            proof {
                assert forall|j: int| i <= j < list@.len() implies !cat_le(
                    #[trigger] list@[j]@,
                    c@,
                ) by {
                    if j > i && cat_le(list@[j]@, c@) {
                        lemma_cat_le_trans(list@[i as int]@, list@[j]@, c@);
                    }
                }
            }
            return i;
        }
        i = i + 1;
    }
    n
}

/// All categories, ordered by kind and then by name.
pub fn list_categories(cats: &Vec<Category>) -> (r: Vec<Category>)
    ensures
        r@.to_multiset() == cats@.to_multiset(),
        sorted_categories(r@),
{
    broadcast use vstd::seq_lib::group_to_multiset_ensures;

    let mut out: Vec<Category> = Vec::new();
    proof {
        assert(cats@.take(0) =~= Seq::<Category>::empty());
        assert(out@.to_multiset() =~= cats@.take(0).to_multiset());
    }
    let mut i: usize = 0;
    while i < cats.len()
        invariant
            0 <= i <= cats@.len(),
            sorted_categories(out@),
            out@.to_multiset() == cats@.take(i as int).to_multiset(),
        decreases cats@.len() - i,
    {
        broadcast use vstd::seq_lib::group_to_multiset_ensures;

        let c = clone_category(&cats[i]);
        let pos = category_pos(&out, &c);
        let ghost out0 = out@;
        let ghost cv = c;
        out.insert(pos, c);
        proof {
            let p = pos as int;
            assert(out@ =~= out0.insert(p, cv));
            assert forall|a: int, b: int| 0 <= a < b < out@.len() implies cat_le(
                #[trigger] out@[a]@,
                #[trigger] out@[b]@,
            ) by {
                if b < p {
                } else if a < p && b == p {
                } else if a < p && b > p {
                    assert(cat_le(out0[a]@, out0[b - 1]@));
                } else if a == p {
                    lemma_cat_le_total(out0[b - 1]@, cv@);
                } else {
                    assert(cat_le(out0[a - 1]@, out0[b - 1]@));
                }
            }
            lemma_to_multiset_insert(out0, p, cv);
            assert(cats@.take(i + 1) =~= cats@.take(i as int).push(cats@[i as int]));
        }
        i = i + 1;
    }
    proof {
        assert(cats@.take(cats@.len() as int) =~= cats@);
    }
    out
}

// ---------------------------------------------------------------------------
// The transaction list
// ---------------------------------------------------------------------------

/// Does a transaction pass the optional month filter?
pub open spec fn tx_matches_filter(t: TransactionRow, month: Option<Seq<char>>) -> bool {
    match month {
        Some(m) => in_month(t.occurred_on@, m),
        None => true,
    }
}

/// The display projection of a transaction row: its fields joined
/// with the name of its category, if it has one that exists.
pub open spec fn tx_record_v(t: TransactionRow, cats: Seq<Category>) -> TransactionRecordV {
    TransactionRecordV {
        id: t.id as int,
        kind: t.kind@,
        amount_cents: t.amount_cents as int,
        occurred_on: t.occurred_on@,
        note: (match t.note {
            Some(n) => Some(n@),
            None => None,
        }),
        category_name: tx_resolved_name(cats, t),
        receipt_path: (match t.receipt_path {
            Some(n) => Some(n@),
            None => None,
        }),
    }
}

/// The projections of the transactions passing the filter, in row
/// order.
pub open spec fn tx_records_for(
    ts: Seq<TransactionRow>,
    cats: Seq<Category>,
    month: Option<Seq<char>>,
) -> Seq<TransactionRecordV>
    decreases ts.len(),
{
    if ts.len() == 0 {
        Seq::<TransactionRecordV>::empty()
    } else {
        let rest = tx_records_for(ts.drop_last(), cats, month);
        if tx_matches_filter(ts.last(), month) {
            rest.push(tx_record_v(ts.last(), cats))
        } else {
            rest
        }
    }
}

proof fn lemma_tx_records_take_step(
    ts: Seq<TransactionRow>,
    cats: Seq<Category>,
    month: Option<Seq<char>>,
    i: int,
)
    requires
        0 <= i < ts.len(),
    ensures
        tx_records_for(ts.take(i + 1), cats, month) == (if tx_matches_filter(ts[i], month) {
            tx_records_for(ts.take(i), cats, month).push(tx_record_v(ts[i], cats))
        } else {
            tx_records_for(ts.take(i), cats, month)
        }),
{
    assert(ts.take(i + 1).drop_last() =~= ts.take(i));
}

/// Display order of transactions: most recent date first, and the
/// higher identifier first within a date.
pub open spec fn tx_le(a: TransactionRecordV, b: TransactionRecordV) -> bool {
    lex_lt(b.occurred_on, a.occurred_on) || (a.occurred_on == b.occurred_on && b.id <= a.id)
}

proof fn lemma_tx_le_total(a: TransactionRecordV, b: TransactionRecordV)
    ensures
        tx_le(a, b) || tx_le(b, a),
{
    if !lex_lt(a.occurred_on, b.occurred_on) && !lex_lt(b.occurred_on, a.occurred_on) {
        crate::text::lemma_lex_connected(a.occurred_on, b.occurred_on);
    }
}

proof fn lemma_tx_le_trans(a: TransactionRecordV, b: TransactionRecordV, c: TransactionRecordV)
    ensures
        tx_le(a, b) && tx_le(b, c) ==> tx_le(a, c),
{
    if tx_le(a, b) && tx_le(b, c) {
        if lex_lt(b.occurred_on, a.occurred_on) && lex_lt(c.occurred_on, b.occurred_on) {
            lemma_lex_trans(c.occurred_on, b.occurred_on, a.occurred_on);
        }
    }
}

/// Ascending [`tx_le`] order.
pub open spec fn sorted_transactions(s: Seq<TransactionRecordV>) -> bool {
    forall|i: int, j: int| 0 <= i < j < s.len() ==> tx_le(#[trigger] s[i], #[trigger] s[j])
}

/// The views of a list of transaction records.
pub open spec fn tx_views(s: Seq<TransactionRecord>) -> Seq<TransactionRecordV> {
    s.map_values(|x: TransactionRecord| x@)
}

fn tx_le_exec(a: &TransactionRecord, b: &TransactionRecord) -> (r: bool)
    ensures
        r == tx_le(a@, b@),
{
    if str_lex_lt(b.occurred_on.as_str(), a.occurred_on.as_str()) {
        return true;
    }
    if str_lex_lt(a.occurred_on.as_str(), b.occurred_on.as_str()) {
        return false;
    }
    proof {
        crate::text::lemma_lex_connected(a@.occurred_on, b@.occurred_on);
    }
    let r = b.id <= a.id;
    r
}

fn transaction_pos(list: &Vec<TransactionRecord>, c: &TransactionRecord) -> (r: usize)
    requires
        sorted_transactions(tx_views(list@)),
    ensures
        r <= list@.len(),
        forall|j: int| 0 <= j < r ==> tx_le(#[trigger] tx_views(list@)[j], c@),
        forall|j: int| r <= j < list@.len() ==> !tx_le(#[trigger] tx_views(list@)[j], c@),
{
    let n = list.len();
    let mut i: usize = 0;
    while i < n
        invariant
            n == list@.len(),
            0 <= i <= n,
            sorted_transactions(tx_views(list@)),
            forall|j: int| 0 <= j < i ==> tx_le(#[trigger] tx_views(list@)[j], c@),
        decreases n - i,
    {
        if !tx_le_exec(&list[i], c) {
            proof {
                assert forall|j: int| i <= j < list@.len() implies !tx_le(
                    #[trigger] tx_views(list@)[j],
                    c@,
                ) by {
                    if j > i && tx_le(tx_views(list@)[j], c@) {
                        lemma_tx_le_trans(tx_views(list@)[i as int], tx_views(list@)[j], c@);
                    }
                }
            }
            return i;
        }
        i = i + 1;
    }
    n
}

fn clone_opt_string(s: &Option<String>) -> (r: Option<String>)
    ensures
        r == *s,
{
    match s {
        Some(v) => Some(v.clone()),
        None => None,
    }
}

/// The transactions to list for a page: those of the given month (or
/// all, when no month is given), joined with their category names,
/// most recent first, at most 200 of them.  The result is the first
/// 200 entries of some sorted arrangement of the matching rows.
pub fn list_transactions(
    txs: &Vec<TransactionRow>,
    cats: &Vec<Category>,
    month: Option<&str>,
) -> (r: Vec<TransactionRecord>)
    ensures
        ({
            let mv = (match month {
                Some(m) => Some(m@),
                None => None,
            });
            let f = tx_records_for(txs@, cats@, mv);
            exists|full: Seq<TransactionRecordV>|
                full.to_multiset() == f.to_multiset() && sorted_transactions(full) && tx_views(r@)
                    == full.take(if full.len() <= 200 {
                    full.len() as int
                } else {
                    200
                })
        }),
{
    broadcast use vstd::seq_lib::group_to_multiset_ensures;

    let ghost mv = (match month {
        Some(m) => Some(m@),
        None => None,
    });
    let mut out: Vec<TransactionRecord> = Vec::new();
    proof {
        assert(txs@.take(0) =~= Seq::<TransactionRow>::empty());
        assert(tx_views(out@) =~= Seq::<TransactionRecordV>::empty());
        assert(tx_views(out@).to_multiset() =~= tx_records_for(
            txs@.take(0),
            cats@,
            mv,
        ).to_multiset());
    }
    let mut i: usize = 0;
    while i < txs.len()
        invariant
            0 <= i <= txs@.len(),
            mv == (match month {
                Some(m) => Some(m@),
                None => None,
            }),
            sorted_transactions(tx_views(out@)),
            tx_views(out@).to_multiset() == tx_records_for(
                txs@.take(i as int),
                cats@,
                mv,
            ).to_multiset(),
        decreases txs@.len() - i,
    {
        broadcast use vstd::seq_lib::group_to_multiset_ensures;

        let t = &txs[i];
        proof {
            lemma_tx_records_take_step(txs@, cats@, mv, i as int);
        }
        let keep = match month {
            Some(m) => occurs_in_month(t.occurred_on.as_str(), m),
            None => true,
        };
        if keep {
            let name = match t.category_id {
                Some(id) => category_name_by_id(cats, id),
                None => None,
            };
            let rec = TransactionRecord {
                id: t.id,
                kind: t.kind.clone(),
                amount_cents: t.amount_cents,
                occurred_on: t.occurred_on.clone(),
                note: clone_opt_string(&t.note),
                category_name: name,
                receipt_path: clone_opt_string(&t.receipt_path),
            };
            proof {
                assert(rec@ == tx_record_v(txs@[i as int], cats@));
            }
            let pos = transaction_pos(&out, &rec);
            let ghost out0 = tx_views(out@);
            let ghost rv = rec@;
            out.insert(pos, rec);
            proof {
                let p = pos as int;
                assert(tx_views(out@) =~= out0.insert(p, rv));
                assert forall|a: int, b: int|
                    0 <= a < b < tx_views(out@).len() implies tx_le(
                    #[trigger] tx_views(out@)[a],
                    #[trigger] tx_views(out@)[b],
                ) by {
                    let v2 = tx_views(out@);
                    if b < p {
                        assert(v2[a] == out0[a] && v2[b] == out0[b]);
                    } else if a < p && b == p {
                        assert(v2[a] == out0[a] && v2[b] == rv);
                    } else if a < p && b > p {
                        assert(v2[a] == out0[a] && v2[b] == out0[b - 1]);
                        assert(tx_le(out0[a], out0[b - 1]));
                    } else if a == p {
                        assert(v2[a] == rv && v2[b] == out0[b - 1]);
                        lemma_tx_le_total(rv, out0[b - 1]);
                    } else {
                        assert(v2[a] == out0[a - 1] && v2[b] == out0[b - 1]);
                        assert(tx_le(out0[a - 1], out0[b - 1]));
                    }
                }
                lemma_to_multiset_insert(out0, p, rv);
            }
        }
        i = i + 1;
    }
    proof {
        assert(txs@.take(txs@.len() as int) =~= txs@);
    }
    let ghost full = tx_views(out@);
    out.truncate(200);
    proof {
        if full.len() <= 200 {
            assert(out@.len() == full.len());
            assert(tx_views(out@) =~= full.take(full.len() as int));
        } else {
            assert(tx_views(out@) =~= full.take(200));
        }
    }
    out
}

} // verus!
