use vstd::prelude::*;
use vstd::string::*;

use crate::text::chars_of;

verus! {

/// The pinned toolchain under which the formatter runs.
pub const TOOLCHAIN: &'static str = "nightly-2022-09-23";

/// `p` occurs in `h` starting at position `i`.
pub open spec fn occurs_at(h: Seq<char>, p: Seq<char>, i: int) -> bool {
    0 <= i && i + p.len() <= h.len() && h.subrange(i, i + p.len()) == p
}

/// `p` occurs somewhere in `h`.
pub open spec fn contains(h: Seq<char>, p: Seq<char>) -> bool {
    exists|i: int| occurs_at(h, p, i)
}

/// Whether the version report of the formatter names a nightly toolchain.
pub fn rustfmt_reports_nightly(version: &str) -> (r: bool)
    ensures
        r == contains(version@, "nightly"@),
{
    let h = chars_of(version);
    let p = chars_of("nightly");
    let hn = h.len();
    let pn = p.len();
    if hn < pn {
        assert forall|i: int| !occurs_at(version@, "nightly"@, i) by {}
        return false;
    }
    let mut i: usize = 0;
    while i <= hn - pn
        invariant
            h@ == version@,
            p@ == "nightly"@,
            hn == h@.len(),
            pn == p@.len(),
            pn <= hn,
            i <= hn - pn + 1,
            forall|k: int| 0 <= k < i ==> !occurs_at(version@, "nightly"@, k),
        decreases hn - pn + 1 - i,
    {
        let mut j: usize = 0;
        let mut same = true;
        while j < pn
            invariant
                h@ == version@,
                p@ == "nightly"@,
                hn == h@.len(),
                pn == p@.len(),
                i + pn <= hn,
                j <= pn,
                same == (forall|x: int| 0 <= x < j ==> h@[i + x] == p@[x]),
            decreases pn - j,
        {
            if h[i + j] != p[j] {
                same = false;
            }
            j = j + 1;
        }
        if same {
            assert(version@.subrange(i as int, i + pn) =~= "nightly"@);
            assert(occurs_at(version@, "nightly"@, i as int));
            return true;
        }
        assert(!occurs_at(version@, "nightly"@, i as int)) by {
            let x = choose|x: int| 0 <= x < pn && h@[i + x] != p@[x];
            if version@.subrange(i as int, i + pn) == "nightly"@ {
                assert(version@.subrange(i as int, i + pn)[x] == h@[i + x]);
            }
        }
        i = i + 1;
    }
    assert forall|k: int| !occurs_at(version@, "nightly"@, k) by {
        if occurs_at(version@, "nightly"@, k) {
            assert(k < i);
        }
    }
    false
}

/// `s`, with a line feed appended unless it already ends with one.
pub open spec fn with_trailing_newline(s: Seq<char>) -> Seq<char> {
    if s.len() > 0 && s.last() == '\n' {
        s
    } else {
        s.push('\n')
    }
}

/// Appends a line feed to formatter output that does not end with one.
pub fn ensure_trailing_newline(text: String) -> (r: String)
    ensures
        r@ == with_trailing_newline(text@),
{
    let s = text.as_str();
    let n = s.unicode_len();
    if n > 0 && s.get_char(n - 1) == '\n' {
        return text;
    }
    let mut out = text;
    out.append("\n");
    proof {
        reveal_strlit("\n");
    }
    assert(out@ =~= text@.push('\n'));
    out
}

/// Formatter output always ends with a line feed, and only one is ever added:
/// the result is the raw output, or the raw output and one line feed.
pub proof fn lemma_trailing_newline(s: Seq<char>)
    ensures
        with_trailing_newline(s).len() > 0,
        with_trailing_newline(s).last() == '\n',
        with_trailing_newline(s) == s || with_trailing_newline(s) == s.push('\n'),
        s.len() > 0 && s.last() == '\n' ==> with_trailing_newline(s) == s,
        with_trailing_newline(with_trailing_newline(s)) == with_trailing_newline(s),
{
}

} // verus!
