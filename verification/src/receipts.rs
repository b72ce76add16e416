//! The receipt gate: a submitted file is kept only for an expense in
//! the one designated category, its extension must come from a fixed
//! allow-list (an unrecognized one falls back to a default), and the
//! stored name is a fixed prefix plus a millisecond timestamp plus
//! the resolved extension.  Timestamp naming makes collisions
//! possible for concurrent submissions within one millisecond; that
//! is an accepted limitation.

use vstd::prelude::*;

use crate::money::{dec_str, push_dec};
use crate::text::{spec_trim, str_eq, trim};

verus! {

// ---------------------------------------------------------------------------
// Lowercasing
// ---------------------------------------------------------------------------

/// The Unicode lowercase form of a string, as `str::to_lowercase`
/// computes it from the characters alone.
pub uninterp spec fn lower_of(s: Seq<char>) -> Seq<char>;

/// Relies on `str::to_lowercase`: the Unicode lowercase mapping,
/// a function of the characters alone.
#[verifier::external_body]
fn to_lower(s: &str) -> (r: String)
    ensures
        r@ == lower_of(s@),
{
    s.to_lowercase()
}

// ---------------------------------------------------------------------------
// The designated category
// ---------------------------------------------------------------------------

/// Is this the designated receipt category?  The name is compared
/// trimmed and case-insensitively against the fixed label.
pub fn is_receipt_category(name: &str) -> (r: bool)
    ensures
        r == (lower_of(spec_trim(name@)) == "жкх"@),
{
    let t = trim(name);
    let lowered = to_lower(t);
    str_eq(lowered.as_str(), "жкх")
}

/// The receipt gate: a file is kept only when the transaction is an
/// expense and its category is the designated one.  Everything else
/// is silently discarded.
pub fn receipt_allowed(kind: &str, category_name: Option<&str>) -> (r: bool)
    ensures
        r == (kind@ == "expense"@ && (match category_name {
            Some(n) => lower_of(spec_trim(n@)) == "жкх"@,
            None => false,
        })),
{
    if !str_eq(kind, "expense") {
        return false;
    }
    match category_name {
        Some(n) => is_receipt_category(n),
        None => false,
    }
}

// ---------------------------------------------------------------------------
// File extensions
// ---------------------------------------------------------------------------

/// The part of `s` after the last occurrence of `c`, or all of `s`
/// when `c` does not occur.
pub open spec fn after_last(s: Seq<char>, c: char) -> Seq<char>
    decreases s.len(),
{
    if s.len() == 0 {
        s
    } else if s.last() == c {
        Seq::<char>::empty()
    } else {
        after_last(s.drop_last(), c).push(s.last())
    }
}

/// The index of the last dot in `f`, or `-1` when there is none.
pub open spec fn last_dot(f: Seq<char>) -> int
    decreases f.len(),
{
    if f.len() == 0 {
        -1
    } else if f.last() == '.' {
        f.len() - 1
    } else {
        last_dot(f.drop_last())
    }
}

/// The extension of a file name: the part of its final path
/// component after the last dot, provided that dot is not the
/// component's first character.
pub open spec fn ext_of(name: Seq<char>) -> Option<Seq<char>> {
    let f = after_last(name, '/');
    let d = last_dot(f);
    if d >= 1 {
        Some(f.skip(d + 1))
    } else {
        None
    }
}

/// The fixed allow-list of receipt image extensions.
pub open spec fn is_allowed_ext(e: Seq<char>) -> bool {
    e == "jpg"@ || e == "jpeg"@ || e == "png"@ || e == "webp"@ || e == "heic"@
}

proof fn lemma_after_last_at(s: Seq<char>, c: char, k: int)
    requires
        0 <= k <= s.len(),
        forall|i: int| k <= i < s.len() ==> s[i] != c,
        k == 0 || s[k - 1] == c,
    ensures
        after_last(s, c) == s.skip(k),
    decreases s.len(),
{
    if s.len() == 0 {
        assert(s.skip(0) =~= s);
    } else if k == s.len() {
        assert(s.last() == c);
        assert(s.skip(k) =~= Seq::<char>::empty());
    } else {
        assert(s.last() != c);
        lemma_after_last_at(s.drop_last(), c, k);
        assert(s.drop_last().skip(k).push(s.last()) =~= s.skip(k));
    }
}

proof fn lemma_last_dot_at(f: Seq<char>, k: int)
    requires
        -1 <= k < f.len(),
        k == -1 || f[k] == '.',
        forall|i: int| k < i < f.len() ==> f[i] != '.',
    ensures
        last_dot(f) == k,
    decreases f.len(),
{
    if f.len() == 0 {
    } else if k == f.len() - 1 {
    } else {
        assert(f.last() != '.');
        lemma_last_dot_at(f.drop_last(), k);
    }
}

/// The lowercased extension of an uploaded file name, when it is on
/// the allow-list; `None` otherwise.
pub fn allowed_extension(name: &str) -> (r: Option<String>)
    ensures
        (match r {
            Some(e) => (match ext_of(name@) {
                Some(x) => e@ == lower_of(x) && is_allowed_ext(lower_of(x)),
                None => false,
            }),
            None => (match ext_of(name@) {
                Some(x) => !is_allowed_ext(lower_of(x)),
                None => true,
            }),
        }),
{
    let n = name.unicode_len();
    // Find the start of the final path component.
    let mut fstart: usize = n;
    while fstart > 0 && name.get_char(fstart - 1) != '/'
        invariant
            n == name@.len(),
            0 <= fstart <= n,
            forall|i: int| fstart <= i < n ==> name@[i] != '/',
        decreases fstart,
    {
        fstart = fstart - 1;
    }
    proof {
        lemma_after_last_at(name@, '/', fstart as int);
    }
    let ghost f = name@.skip(fstart as int);
    // Find the last dot inside the component.
    let mut dend: usize = n;
    while dend > fstart && name.get_char(dend - 1) != '.'
        invariant
            n == name@.len(),
            fstart <= dend <= n,
            forall|i: int| dend <= i < n ==> name@[i] != '.',
        decreases dend,
    {
        dend = dend - 1;
    }
    if dend == fstart {
        // The component has no dot at all.
        proof {
            lemma_last_dot_at(f, -1);
        }
        return None;
    }
    if dend - 1 == fstart {
        // The only dot is the component's first character.
        proof {
            assert(name@[dend - 1] == '.');
            assert(f[0] == '.');
            lemma_last_dot_at(f, 0);
        }
        return None;
    }
    proof {
        assert(name@[dend - 1] == '.');
        assert(f[dend - 1 - fstart] == '.');
        lemma_last_dot_at(f, dend - 1 - fstart);
        assert(f.skip(dend - fstart) =~= name@.subrange(dend as int, n as int));
    }
    let raw = name.substring_char(dend, n);
    let lowered = to_lower(raw);
    let ok = str_eq(lowered.as_str(), "jpg") || str_eq(lowered.as_str(), "jpeg") || str_eq(
        lowered.as_str(),
        "png",
    ) || str_eq(lowered.as_str(), "webp") || str_eq(lowered.as_str(), "heic");
    if ok {
        Some(lowered)
    } else {
        None
    }
}

// ---------------------------------------------------------------------------
// Stored names
// ---------------------------------------------------------------------------

/// The decimal numeral of a signed value.
pub open spec fn dec_i64(n: int) -> Seq<char> {
    if n < 0 {
        seq!['-'] + dec_str(-n)
    } else {
        dec_str(n)
    }
}

/// The extension a stored receipt gets: the upload's allow-listed
/// extension, or the default.
pub open spec fn chosen_ext(upload: Option<Seq<char>>) -> Seq<char> {
    match upload {
        Some(nm) => (match ext_of(nm) {
            Some(x) => if is_allowed_ext(lower_of(x)) {
                lower_of(x)
            } else {
                "jpg"@
            },
            None => "jpg"@,
        }),
        None => "jpg"@,
    }
}

/// The stored name of a receipt: the fixed prefix, the millisecond
/// timestamp, and the resolved extension.
pub open spec fn spec_receipt_file_name(millis: int, upload: Option<Seq<char>>) -> Seq<char> {
    "receipt-"@ + dec_i64(millis) + seq!['.'] + chosen_ext(upload)
}

/// Builds the stored file name for a receipt uploaded at the given
/// millisecond timestamp.
pub fn receipt_file_name(millis: i64, upload_name: Option<&str>) -> (r: String)
    ensures
        r@ == spec_receipt_file_name(
            millis as int,
            (match upload_name {
                Some(nm) => Some(nm@),
                None => None,
            }),
        ),
{
    let mut out = String::from_str("receipt-");
    if millis < 0 {
        proof {
            reveal_strlit("-");
        }
        out.append("-");
    }
    let mag: u64 = if millis >= 0 {
        millis as u64
    } else {
        (-(millis as i128)) as u64
    };
    push_dec(&mut out, mag);
    proof {
        reveal_strlit(".");
    }
    out.append(".");
    let ext = match upload_name {
        Some(nm) => allowed_extension(nm),
        None => None,
    };
    match ext {
        Some(e) => {
            out.append(e.as_str());
        },
        None => {
            out.append("jpg");
        },
    }
    proof {
        assert(out@ =~= spec_receipt_file_name(
            millis as int,
            (match upload_name {
                Some(nm) => Some(nm@),
                None => None,
            }),
        ));
    }
    out
}

/// Relies on chrono's `Local::now` and `timestamp_millis`: the
/// current time as milliseconds since the epoch.  Nothing can be
/// promised of a clock reading.
#[verifier::external_body]
fn now_millis() -> i64 {
    chrono::Local::now().timestamp_millis()
}

/// Is `r` the stored receipt name for some millisecond timestamp?
pub open spec fn is_receipt_name_for(r: Seq<char>, upload: Option<Seq<char>>) -> bool {
    exists|m: i64| r == #[trigger] spec_receipt_file_name(m as int, upload)
}

/// Builds a stored receipt name from the clock: the fixed prefix,
/// the current millisecond timestamp, and the upload's resolved
/// extension.
pub fn fresh_receipt_name(upload_name: Option<&str>) -> (r: String)
    ensures
        is_receipt_name_for(
            r@,
            (match upload_name {
                Some(nm) => Some(nm@),
                None => None,
            }),
        ),
{
    let millis = now_millis();
    let r = receipt_file_name(millis, upload_name);
    proof {
        let uv = (match upload_name {
            Some(nm) => Some(nm@),
            None => None,
        });
        assert(r@ == spec_receipt_file_name(millis as int, uv));
        assert(is_receipt_name_for(r@, uv)) by {
            assert(r@ == spec_receipt_file_name(millis as int, uv));
        }
    }
    r
}

/// The directory stored receipts live in.
pub fn receipts_dir() -> (r: String)
    ensures
        r@ == "data/receipts"@,
{
    String::from_str("data/receipts")
}

} // verus!
