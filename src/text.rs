use vstd::prelude::*;
use vstd::string::*;

verus! {

/// The characters of `s`, in order.
pub fn chars_of(s: &str) -> (r: Vec<char>)
    ensures
        r@ == s@,
{
    let mut out: Vec<char> = Vec::new();
    for c in it: s.chars()
        invariant
            out@ == it.seq().subrange(0, it.index() as int),
    {
        out.push(c);
    }
    proof {
        broadcast use axiom_spec_iter;
        assert(out@ =~= s@);
    }
    out
}


/// Whether position `i` of `s` holds a carriage return that opens a CRLF pair.
pub open spec fn is_crlf_at(s: Seq<char>, i: int) -> bool {
    0 <= i && i + 1 < s.len() && s[i] == '\r' && s[i + 1] == '\n'
}

/// The first `n` characters of `s` with every CRLF pair collapsed to LF:
/// a carriage return is dropped exactly when a line feed follows it.
pub open spec fn normalized_upto(s: Seq<char>, n: int) -> Seq<char>
    decreases n,
{
    if n <= 0 {
        Seq::empty()
    } else if is_crlf_at(s, n - 1) {
        normalized_upto(s, n - 1)
    } else {
        normalized_upto(s, n - 1).push(s[n - 1])
    }
}

/// `s` with every `"\r\n"` replaced by `"\n"`.
pub open spec fn normalized(s: Seq<char>) -> Seq<char> {
    normalized_upto(s, s.len() as int)
}

/// Collapses every `"\r\n"` of `s` into `"\n"`.
pub fn normalize_newlines(s: &str) -> (r: String)
    ensures
        r@ == normalized(s@),
{
    let cs = chars_of(s);
    let n = cs.len();
    let mut out = String::new();
    let mut seg: usize = 0;
    let mut i: usize = 0;
    while i < n
        invariant
            cs@ == s@,
            n == s@.len(),
            seg <= i <= n,
            out@ + s@.subrange(seg as int, i as int) == normalized_upto(s@, i as int),
        decreases n - i,
    {
        if cs[i] == '\r' && i + 1 < n && cs[i + 1] == '\n' {
            let piece = s.substring_char(seg, i);
            out.append(piece);
            seg = i + 1;
            assert(s@.subrange(seg as int, seg as int) =~= Seq::<char>::empty());
            assert(out@ + s@.subrange(seg as int, seg as int) =~= out@);
        } else {
            assert(s@.subrange(seg as int, i + 1) =~= s@.subrange(seg as int, i as int).push(
                s@[i as int],
            ));
        }
        i = i + 1;
    }
    let rest = s.substring_char(seg, n);
    out.append(rest);
    out
}

/// The hidden header line that names the generator of a file.
pub open spec fn hidden_preamble(generator: Seq<char>) -> Seq<char> {
    "// Generated by `"@ + generator + "`, do not edit by hand.\n\n"@
}

/// The documentation header line that names the generator of a file.
pub open spec fn doc_preamble(generator: Seq<char>) -> Seq<char> {
    "//! Generated by `"@ + generator + "`, do not edit by hand.\n\n"@
}

/// Prepends a plain comment naming `generator` and asking readers not to edit.
pub fn add_hidden_preamble(generator: &'static str, text: String) -> (r: String)
    ensures
        r@ == hidden_preamble(generator@) + text@,
{
    let mut out = String::from_str("// Generated by `");
    out.append(generator);
    out.append("`, do not edit by hand.\n\n");
    out.append(text.as_str());
    out
}

/// Prepends a file-level doc comment naming `generator` and asking readers not to edit.
pub fn add_preamble(generator: &'static str, text: String) -> (r: String)
    ensures
        r@ == doc_preamble(generator@) + text@,
{
    let mut out = String::from_str("//! Generated by `");
    out.append(generator);
    out.append("`, do not edit by hand.\n\n");
    out.append(text.as_str());
    out
}

/// `i` is the first position at which `l` and `r` hold different characters.
pub open spec fn first_divergence(l: Seq<char>, r: Seq<char>, i: int) -> bool {
    &&& 0 <= i < l.len()
    &&& i < r.len()
    &&& l[i] != r[i]
    &&& forall|j: int| 0 <= j < i ==> l[j] == r[j]
}

/// `l` and `r` disagree somewhere within their common length.
pub open spec fn diverge(l: Seq<char>, r: Seq<char>) -> bool {
    exists|i: int| first_divergence(l, r, i)
}

/// The first position at which `l` and `r` differ, if any within their common length.
pub fn find_divergence(l: &str, r: &str) -> (res: Option<usize>)
    ensures
        match res {
            Some(i) => first_divergence(l@, r@, i as int),
            None => !diverge(l@, r@),
        },
{
    let lc = chars_of(l);
    let rc = chars_of(r);
    let mut i: usize = 0;
    while i < lc.len() && i < rc.len()
        invariant
            lc@ == l@,
            rc@ == r@,
            i <= lc.len(),
            i <= rc.len(),
            forall|j: int| 0 <= j < i ==> l@[j] == r@[j],
        decreases lc.len() - i,
    {
        if lc[i] != rc[i] {
            return Some(i);
        }
        i = i + 1;
    }
    assert forall|k: int| !first_divergence(l@, r@, k) by {
        if first_divergence(l@, r@, k) {
            assert(l@[k] == r@[k]);
        }
    }
    None
}

/// The shortest prefix of `l` that `r` does not start with: `l` up to and
/// including the first character where the two differ.
pub fn min_prefix<'a>(l: &'a str, r: &str) -> (res: &'a str)
    requires
        diverge(l@, r@),
    ensures
        exists|i: int| first_divergence(l@, r@, i) && res@ == l@.subrange(0, i + 1),
{
    let n = l.unicode_len();
    match find_divergence(l, r) {
        Some(i) => l.substring_char(0, i + 1),
        None => {
            proof {
                let k = choose|k: int| first_divergence(l@, r@, k);
            }
            l.substring_char(0, 0)
        },
    }
}

/// What `char::to_uppercase` yields for `c`.
pub uninterp spec fn upper_of(c: char) -> Seq<char>;

/// Relies on `char::to_uppercase`: the uppercase mapping of `c`, one or more
/// characters, collected into a string.
#[verifier::external_body]
fn char_to_upper(c: char) -> (r: String)
    ensures
        r@ == upper_of(c),
{
    c.to_uppercase().collect::<String>()
}

/// Changes the first character in a string to uppercase.
pub fn to_uppercase(s: &str) -> (r: String)
    requires
        s@.len() > 0,
    ensures
        r@ == upper_of(s@[0]) + s@.drop_first(),
{
    let n = s.unicode_len();
    let first = s.get_char(0);
    let mut out = char_to_upper(first);
    out.append(s.substring_char(1, n));
    assert(s@.subrange(1, n as int) =~= s@.drop_first());
    out
}

} // verus!
