use vstd::prelude::*;
use vstd::string::*;

use crate::text::{is_crlf_at, normalize_newlines, normalized, normalized_upto};

verus! {

/// What checking one generated file against its expected text led to.
#[derive(Debug, Clone, Copy, PartialEq, Eq, Structural)]
pub enum SyncOutcome {
    /// The file already held the expected text, up to line endings.
    Unchanged,
    /// The file differed and is to be overwritten with the expected text.
    UpdatedOnDisk,
}

/// The outcome for a file holding `current` that should hold `expected`:
/// only a difference that survives collapsing CRLF to LF counts as drift.
pub open spec fn outcome_of(current: Seq<char>, expected: Seq<char>) -> SyncOutcome {
    if normalized(current) == normalized(expected) {
        SyncOutcome::Unchanged
    } else {
        SyncOutcome::UpdatedOnDisk
    }
}

/// The text on disk once the outcome for (`current`, `expected`) is carried out.
pub open spec fn content_after(current: Seq<char>, expected: Seq<char>) -> Seq<char> {
    if outcome_of(current, expected) == SyncOutcome::Unchanged {
        current
    } else {
        expected
    }
}

/// How many of `outcomes` are updates.
pub open spec fn updated_count(outcomes: Seq<SyncOutcome>) -> nat
    decreases outcomes.len(),
{
    if outcomes.len() == 0 {
        0
    } else {
        updated_count(outcomes.drop_last()) + if outcomes.last() == SyncOutcome::UpdatedOnDisk {
            1nat
        } else {
            0nat
        }
    }
}

/// The outcome of a whole batch of (current, expected) pairs.
pub struct SyncReport {
    /// One outcome per unit, in the order of the units.
    pub outcomes: Vec<SyncOutcome>,
    /// How many units are to be rewritten.
    pub updated: usize,
}

/// Decides whether a file holding `current` is up to date with `contents`.
pub fn ensure_file_contents(current: &str, contents: &str) -> (r: SyncOutcome)
    ensures
        r == outcome_of(current@, contents@),
{
    let a = normalize_newlines(current);
    let b = normalize_newlines(contents);
    if a == b {
        SyncOutcome::Unchanged
    } else {
        SyncOutcome::UpdatedOnDisk
    }
}

/// Decides, for each (current, expected) pair in order, whether its file
/// must be rewritten, and counts the rewrites.
pub fn ensure_files_contents(units: &Vec<(String, String)>) -> (r: SyncReport)
    ensures
        r.outcomes@.len() == units@.len(),
        forall|k: int|
            0 <= k < units@.len() ==> r.outcomes@[k] == outcome_of(
                (#[trigger] units@[k]).0@,
                units@[k].1@,
            ),
        r.updated == updated_count(r.outcomes@),
{
    let mut outcomes: Vec<SyncOutcome> = Vec::new();
    let mut updated: usize = 0;
    let n = units.len();
    let mut k: usize = 0;
    while k < n
        invariant
            n == units@.len(),
            k <= n,
            outcomes@.len() == k,
            forall|q: int|
                0 <= q < k ==> outcomes@[q] == outcome_of((#[trigger] units@[q]).0@, units@[q].1@),
            updated == updated_count(outcomes@),
            updated <= k,
        decreases n - k,
    {
        let unit = &units[k];
        let o = ensure_file_contents(unit.0.as_str(), unit.1.as_str());
        let ghost before = outcomes@;
        outcomes.push(o);
        assert(outcomes@.drop_last() =~= before);
        if o == SyncOutcome::UpdatedOnDisk {
            updated = updated + 1;
        }
        k = k + 1;
    }
    SyncReport { outcomes, updated }
}

/// The decimal digits of `n`.
pub open spec fn decimal(n: nat) -> Seq<char>
    decreases n,
{
    if n < 10 {
        seq!["0123456789"@[n as int]]
    } else {
        decimal(n / 10).push("0123456789"@[(n % 10) as int])
    }
}

/// `n` written in decimal.
pub fn decimal_string(n: usize) -> (r: String)
    ensures
        r@ == decimal(n as nat),
    decreases n,
{
    let digits = "0123456789";
    proof {
        reveal_strlit("0123456789");
    }
    if n < 10 {
        let d = digits.substring_char(n, n + 1);
        let out = String::from_str(d);
        assert(out@ =~= seq!["0123456789"@[n as int]]);
        out
    } else {
        let mut out = decimal_string(n / 10);
        let m = n % 10;
        let ghost front = out@;
        out.append(digits.substring_char(m, m + 1));
        assert(out@ =~= front.push("0123456789"@[m as int]));
        out
    }
}

/// The line that reports `n` rewritten files.
pub open spec fn summary(n: nat) -> Seq<char> {
    if n == 1 {
        "1 file was not up to date and has been updated, simply re-run the tests"@
    } else {
        decimal(n) + " files were not up to date and have been updated, simply re-run the tests"@
    }
}

/// The failure line for a batch with `updated` rewritten files; none when
/// every file was up to date.
pub fn summary_message(updated: usize) -> (r: Option<String>)
    ensures
        updated == 0 ==> r is None,
        updated > 0 ==> r is Some && r->Some_0@ == summary(updated as nat),
{
    if updated == 0 {
        None
    } else if updated == 1 {
        Some(String::from_str("1 file was not up to date and has been updated, simply re-run the tests"))
    } else {
        let mut out = decimal_string(updated);
        out.append(" files were not up to date and have been updated, simply re-run the tests");
        Some(out)
    }
}

/// The hint added to the failure when running under continuous integration.
pub fn ci_hint(in_ci: bool) -> (r: Option<&'static str>)
    ensures
        in_ci ==> r == Some("    NOTE: run `cargo test` locally and commit the updated files\n"),
        !in_ci ==> r is None,
{
    if in_ci {
        Some("    NOTE: run `cargo test` locally and commit the updated files\n")
    } else {
        None
    }
}

/// Checking a file a second time, after the first check carried out its
/// outcome, finds it unchanged: the second run writes nothing.
pub proof fn lemma_sync_idempotent(current: Seq<char>, expected: Seq<char>)
    ensures
        outcome_of(content_after(current, expected), expected) == SyncOutcome::Unchanged,
        outcome_of(current, expected) == SyncOutcome::Unchanged ==> content_after(current, expected)
            == current,
{
}

/// Texts that agree once CRLF is collapsed to LF are never drift.
pub proof fn lemma_line_endings_ignored(current: Seq<char>, expected: Seq<char>)
    requires
        normalized(current) == normalized(expected),
    ensures
        outcome_of(current, expected) == SyncOutcome::Unchanged,
        content_after(current, expected) == current,
{
}

/// After a batch is carried out, running it again updates no file.
pub proof fn lemma_batch_idempotent(units: Seq<(Seq<char>, Seq<char>)>)
    ensures
        updated_count(
            units.map_values(
                |u: (Seq<char>, Seq<char>)| outcome_of(content_after(u.0, u.1), u.1),
            ),
        ) == 0,
    decreases units.len(),
{
    let f = |u: (Seq<char>, Seq<char>)| outcome_of(content_after(u.0, u.1), u.1);
    if units.len() > 0 {
        lemma_batch_idempotent(units.drop_last());
        assert(units.map_values(f).drop_last() =~= units.drop_last().map_values(f));
        lemma_sync_idempotent(units.last().0, units.last().1);
    }
}

/// `s` written with CRLF line endings: every line feed preceded by a carriage return.
pub open spec fn with_crlf(s: Seq<char>) -> Seq<char>
    decreases s.len(),
{
    if s.len() == 0 {
        Seq::empty()
    } else if s.last() == '\n' {
        with_crlf(s.drop_last()) + seq!['\r', '\n']
    } else {
        with_crlf(s.drop_last()).push(s.last())
    }
}

/// Text without carriage returns is its own normal form.
proof fn lemma_normalized_without_cr(s: Seq<char>, k: int)
    requires
        0 <= k <= s.len(),
        forall|i: int| 0 <= i < s.len() ==> s[i] != '\r',
    ensures
        normalized_upto(s, k) == s.subrange(0, k),
    decreases k,
{
    if k > 0 {
        lemma_normalized_without_cr(s, k - 1);
        assert(s.subrange(0, k) =~= s.subrange(0, k - 1).push(s[k - 1]));
    }
}

/// Appending text after `t` does not change how `t` normalizes, unless `t`
/// ends with a carriage return that the appended text would pair up.
proof fn lemma_normalized_prefix(t: Seq<char>, y: Seq<char>, k: int)
    requires
        0 <= k <= t.len(),
        t.len() == 0 || t.last() != '\r',
    ensures
        normalized_upto(t + y, k) == normalized_upto(t, k),
    decreases k,
{
    if k > 0 {
        lemma_normalized_prefix(t, y, k - 1);
        assert((t + y)[k - 1] == t[k - 1]);
        if k < t.len() {
            assert((t + y)[k] == t[k]);
        }
    }
}

/// The CRLF form of text never ends with a carriage return, and normalizes back.
proof fn lemma_with_crlf_normalizes(s: Seq<char>)
    requires
        forall|i: int| 0 <= i < s.len() ==> s[i] != '\r',
    ensures
        normalized(with_crlf(s)) == s,
        with_crlf(s).len() == 0 || with_crlf(s).last() != '\r',
    decreases s.len(),
{
    if s.len() > 0 {
        let p = s.drop_last();
        let t = with_crlf(p);
        lemma_with_crlf_normalizes(p);
        if s.last() == '\n' {
            let y = seq!['\r', '\n'];
            let w = t + y;
            assert(w[t.len() + 1int] == '\n');
            assert(is_crlf_at(w, t.len() as int));
            lemma_normalized_prefix(t, y, t.len() as int);
            assert(w.len() == t.len() + 2);
            assert(!is_crlf_at(w, t.len() + 1int));
            assert(normalized_upto(w, t.len() + 1int) == normalized_upto(w, t.len() as int));
            assert(normalized_upto(w, w.len() as int) == normalized_upto(w, t.len() + 1int).push(
                '\n',
            ));
        } else {
            let y = seq![s.last()];
            let w = t + y;
            assert(w =~= t.push(s.last()));
            lemma_normalized_prefix(t, y, t.len() as int);
            assert(!is_crlf_at(w, t.len() as int));
        }
        assert(s =~= p.push(s.last()));
    }
}

/// A file checked out with CRLF line endings is up to date with the same
/// text written with LF endings, and the other way round.
pub proof fn lemma_crlf_checkout_unchanged(s: Seq<char>)
    requires
        forall|i: int| 0 <= i < s.len() ==> s[i] != '\r',
    ensures
        outcome_of(with_crlf(s), s) == SyncOutcome::Unchanged,
        outcome_of(s, with_crlf(s)) == SyncOutcome::Unchanged,
{
    lemma_with_crlf_normalizes(s);
    lemma_normalized_without_cr(s, s.len() as int);
    assert(s.subrange(0, s.len() as int) =~= s);
}

} // verus!
