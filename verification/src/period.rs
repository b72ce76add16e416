//! Period resolver: normalizes a caller-supplied or absent month
//! selector to a `YYYY-MM` token and builds the navigation menu of
//! months, most recent first.

use vstd::prelude::*;

use crate::text::{lemma_lex_connected, lemma_lex_trans, lex_lt, spec_trim, str_eq, str_lex_lt, trim};

verus! {

/// The character views of a list of strings.
pub open spec fn month_views(v: Seq<String>) -> Seq<Seq<char>> {
    v.map_values(|s: String| s@)
}

/// Strictly descending lexicographic order.  It rules out duplicates.
pub open spec fn sorted_desc(s: Seq<Seq<char>>) -> bool {
    forall|i: int, j: int| 0 <= i < j < s.len() ==> lex_lt(#[trigger] s[j], #[trigger] s[i])
}

pub(crate) proof fn lemma_insert_contains<A>(s: Seq<A>, i: int, x: A, y: A)
    requires
        0 <= i <= s.len(),
    ensures
        s.insert(i, x).contains(y) <==> (s.contains(y) || y == x),
{
    let t = s.insert(i, x);
    if t.contains(y) {
        let k = choose|k: int| 0 <= k < t.len() && t[k] == y;
        if k < i {
            assert(s[k] == y);
        } else if k > i {
            assert(s[k - 1] == y);
        }
    }
    if s.contains(y) {
        let k = choose|k: int| 0 <= k < s.len() && s[k] == y;
        if k < i {
            assert(t[k] == y);
        } else {
            assert(t[k + 1] == y);
        }
    }
    if y == x {
        assert(t[i] == y);
    }
}

pub(crate) proof fn lemma_push_to_set<A>(s: Seq<A>, x: A)
    ensures
        s.push(x).to_set() == s.to_set().insert(x),
{
    assert(s.push(x) =~= s.insert(s.len() as int, x));
    assert forall|y: A|
        s.push(x).to_set().contains(y) == s.to_set().insert(x).contains(y) by {
        lemma_insert_contains(s, s.len() as int, x, y);
    }
    assert(s.push(x).to_set() =~= s.to_set().insert(x));
}

proof fn lemma_views_insert(v: Seq<String>, i: int, x: String)
    requires
        0 <= i <= v.len(),
    ensures
        month_views(v.insert(i, x)) == month_views(v).insert(i, x@),
{
    assert(month_views(v.insert(i, x)) =~= month_views(v).insert(i, x@));
}

fn find_slot(list: &Vec<String>, m: &str) -> (r: (usize, bool))
    requires
        sorted_desc(month_views(list@)),
    ensures
        r.1 ==> month_views(list@).contains(m@),
        !r.1 ==> r.0 <= list@.len(),
        !r.1 ==> (forall|j: int| 0 <= j < r.0 ==> lex_lt(m@, month_views(list@)[j])),
        !r.1 ==> (forall|j: int|
            r.0 <= j < list@.len() ==> lex_lt(month_views(list@)[j], m@)),
{
    let n = list.len();
    let mut i: usize = 0;
    while i < n
        invariant
            n == list@.len(),
            0 <= i <= n,
            sorted_desc(month_views(list@)),
            forall|j: int| 0 <= j < i ==> lex_lt(m@, month_views(list@)[j]),
        decreases n - i,
    {
        let e = &list[i];
        if str_eq(m, e.as_str()) {
            proof {
                assert(month_views(list@)[i as int] == m@);
            }
            return (i, true);
        }
        if str_lex_lt(e.as_str(), m) {
            proof {
                assert forall|j: int|
                    i <= j < list@.len() implies lex_lt(month_views(list@)[j], m@) by {
                    if j > i {
                        lemma_lex_trans(
                            month_views(list@)[j],
                            month_views(list@)[i as int],
                            m@,
                        );
                    }
                }
            }
            return (i, false);
        }
        proof {
            if !lex_lt(m@, month_views(list@)[i as int]) {
                lemma_lex_connected(m@, month_views(list@)[i as int]);
            }
        }
        i = i + 1;
    }
    (n, false)
}

/// Inserts a month token into a strictly descending list, keeping it
/// sorted and without duplicates.
pub(crate) fn insert_month(list: &mut Vec<String>, m: String)
    requires
        sorted_desc(month_views(old(list)@)),
    ensures
        sorted_desc(month_views(final (list)@)),
        month_views(final (list)@).to_set() == month_views(old(list)@).to_set().insert(m@),
{
    let (pos, present) = find_slot(list, m.as_str());
    if present {
        proof {
            assert(month_views(list@).to_set().contains(m@));
            assert(month_views(list@).to_set() =~= month_views(list@).to_set().insert(m@));
        }
        return;
    }
    proof {
        lemma_views_insert(list@, pos as int, m);
    }
    let ghost v = month_views(list@);
    list.insert(pos, m);
    proof {
        let v2 = month_views(list@);
        assert(v2 == v.insert(pos as int, m@));
        assert forall|a: int, b: int| 0 <= a < b < v2.len() implies lex_lt(v2[b], v2[a]) by {
            let p = pos as int;
            if b < p {
            } else if a < p && b == p {
            } else if a < p && b > p {
                lemma_lex_trans(v[b - 1], m@, v[a]);
            } else if a == p {
            } else {
            }
        }
        assert forall|y: Seq<char>|
            v2.to_set().contains(y) == v.to_set().insert(m@).contains(y) by {
            lemma_insert_contains(v, pos as int, m@, y);
        }
        assert(v2.to_set() =~= v.to_set().insert(m@));
    }
}

/// Builds the month navigation menu: the union of the months seen in
/// transactions and in budgets plus the given current month, without
/// duplicates, most recent first.
pub fn month_menu(tx_months: &Vec<String>, budget_months: &Vec<String>, current: String) -> (r:
    Vec<String>)
    ensures
        sorted_desc(month_views(r@)),
        month_views(r@).to_set() == month_views(tx_months@).to_set().union(
            month_views(budget_months@).to_set(),
        ).insert(current@),
{
    let mut out: Vec<String> = Vec::new();
    insert_month(&mut out, current);
    let ghost base = Set::<Seq<char>>::empty().insert(current@);
    proof {
        assert(month_views(Seq::<String>::empty()) =~= Seq::<Seq<char>>::empty());
        assert(Seq::<Seq<char>>::empty().to_set() =~= Set::<Seq<char>>::empty());
        assert(month_views(out@).to_set() =~= base);
    }
    let mut i: usize = 0;
    while i < tx_months.len()
        invariant
            0 <= i <= tx_months@.len(),
            sorted_desc(month_views(out@)),
            month_views(out@).to_set() == month_views(tx_months@.take(i as int)).to_set().union(
                base,
            ),
        decreases tx_months@.len() - i,
    {
        insert_month(&mut out, tx_months[i].clone());
        proof {
            assert(tx_months@.take(i + 1) =~= tx_months@.take(i as int).push(tx_months@[i as int]));
            assert(month_views(tx_months@.take(i + 1)) =~= month_views(
                tx_months@.take(i as int),
            ).push(tx_months@[i as int]@));
            lemma_push_to_set(month_views(tx_months@.take(i as int)), tx_months@[i as int]@);
            assert(month_views(out@).to_set() =~= month_views(tx_months@.take(i + 1)).to_set().union(
                base,
            ));
        }
        i = i + 1;
    }
    proof {
        assert(tx_months@.take(tx_months@.len() as int) =~= tx_months@);
    }
    let ghost base2 = month_views(tx_months@).to_set().union(base);
    let mut k: usize = 0;
    while k < budget_months.len()
        invariant
            0 <= k <= budget_months@.len(),
            sorted_desc(month_views(out@)),
            month_views(out@).to_set() == month_views(budget_months@.take(k as int)).to_set().union(
                base2,
            ),
        decreases budget_months@.len() - k,
    {
        insert_month(&mut out, budget_months[k].clone());
        proof {
            assert(budget_months@.take(k + 1) =~= budget_months@.take(k as int).push(
                budget_months@[k as int],
            ));
            assert(month_views(budget_months@.take(k + 1)) =~= month_views(
                budget_months@.take(k as int),
            ).push(budget_months@[k as int]@));
            lemma_push_to_set(
                month_views(budget_months@.take(k as int)),
                budget_months@[k as int]@,
            );
            assert(month_views(out@).to_set() =~= month_views(
                budget_months@.take(k + 1),
            ).to_set().union(base2));
        }
        k = k + 1;
    }
    proof {
        assert(budget_months@.take(budget_months@.len() as int) =~= budget_months@);
        assert(month_views(out@).to_set() =~= month_views(tx_months@).to_set().union(
            month_views(budget_months@).to_set(),
        ).insert(current@));
    }
    out
}

/// Relies on chrono's `Local::now` and `NaiveDate::format` with the
/// `"%Y-%m"` pattern: the local date rendered as a zero-padded year
/// of at least four digits, a dash, and a two-digit month.
#[verifier::external_body]
fn current_month() -> (r: String)
    ensures
        r@.len() >= 7,
{
    chrono::Local::now().date_naive().format("%Y-%m").to_string()
}

/// The month a caller selected: the trimmed input when it is present
/// and non-blank, otherwise the given fallback.
pub fn selected_month_or(month: Option<String>, fallback: String) -> (r: String)
    ensures
        r@ == (match month {
            Some(m) => if spec_trim(m@).len() > 0 {
                spec_trim(m@)
            } else {
                fallback@
            },
            None => fallback@,
        }),
{
    match month {
        Some(m) => {
            let t = trim(m.as_str());
            if t.unicode_len() > 0 {
                String::from_str(t)
            } else {
                fallback
            }
        },
        None => fallback,
    }
}

/// The month a caller selected: the trimmed input when it is present
/// and non-blank, otherwise the current calendar month from the wall
/// clock.
pub fn selected_month(month: Option<String>) -> (r: String)
    ensures
        (match month {
            Some(m) => if spec_trim(m@).len() > 0 {
                r@ == spec_trim(m@)
            } else {
                r@.len() >= 7
            },
            None => r@.len() >= 7,
        }),
{
    let fallback = current_month();
    selected_month_or(month, fallback)
}

/// The navigation menu with the current calendar month included: the
/// distinct months of both lists plus the month the clock gives,
/// most recent first.
pub fn available_months(tx_months: &Vec<String>, budget_months: &Vec<String>) -> (r: Vec<String>)
    ensures
        sorted_desc(month_views(r@)),
        exists|cur: Seq<char>|
            month_views(r@).to_set() == month_views(tx_months@).to_set().union(
                month_views(budget_months@).to_set(),
            ).insert(cur),
{
    let current = current_month();
    let ghost cur = current@;
    let r = month_menu(tx_months, budget_months, current);
    proof {
        assert(month_views(r@).to_set() == month_views(tx_months@).to_set().union(
            month_views(budget_months@).to_set(),
        ).insert(cur));
    }
    r
}

} // verus!
