use vstd::prelude::*;
use vstd::string::*;
use vstd::utf8::*;

verus! {

/// The line-feed byte.
pub const LF: u8 = 10;

/// Why a named region could not be patched.
#[derive(Debug, Clone, Copy, PartialEq, Eq, Structural)]
pub enum BlockError {
    /// No start marker for the title.
    MissingBlockStart,
    /// More than one start marker for the title.
    AmbiguousBlockStart,
    /// No end marker for the title.
    MissingBlockEnd,
    /// More than one end marker for the title.
    AmbiguousBlockEnd,
    /// The end marker begins before the start marker is over.
    InvertedBlock,
}

/// The bytes `// START BLOCK ` that open a start marker.
pub open spec fn start_prefix() -> Seq<u8> {
    seq![47u8, 47, 32, 83, 84, 65, 82, 84, 32, 66, 76, 79, 67, 75, 32]
}

/// The bytes `// END BLOCK ` that open an end marker.
pub open spec fn end_prefix() -> Seq<u8> {
    seq![47u8, 47, 32, 69, 78, 68, 32, 66, 76, 79, 67, 75, 32]
}

/// The line `// START BLOCK {title}\n`, as bytes.
pub open spec fn start_marker(title: Seq<u8>) -> Seq<u8> {
    start_prefix() + title + seq![LF]
}

/// The line `// END BLOCK {title}\n`, as bytes.
pub open spec fn end_marker(title: Seq<u8>) -> Seq<u8> {
    end_prefix() + title + seq![LF]
}

/// The title holds no line-feed byte, so each marker is a single line.
pub open spec fn line_free(title: Seq<u8>) -> bool {
    forall|k: int| 0 <= k < title.len() ==> title[k] != LF
}

/// `p` occurs in `h` starting at byte `i`.
pub open spec fn occurs_at(h: Seq<u8>, p: Seq<u8>, i: int) -> bool {
    0 <= i && i + p.len() <= h.len() && h.subrange(i, i + p.len()) == p
}

/// `p` occurs somewhere in `h`.
pub open spec fn occurs(h: Seq<u8>, p: Seq<u8>) -> bool {
    exists|i: int| occurs_at(h, p, i)
}

/// `p` occurs in `h` at two different places.
pub open spec fn occurs_twice(h: Seq<u8>, p: Seq<u8>) -> bool {
    exists|i: int, j: int| i != j && occurs_at(h, p, i) && occurs_at(h, p, j)
}

/// The outcome of replacing the interior of the block titled `title` in the
/// text `h` by `new`: each marker must occur exactly once, and the end marker
/// must not begin before the start marker is over.
pub open spec fn patched(h: Seq<u8>, title: Seq<u8>, new: Seq<u8>) -> Result<Seq<u8>, BlockError> {
    let sm = start_marker(title);
    let em = end_marker(title);
    if !occurs(h, sm) {
        Err(BlockError::MissingBlockStart)
    } else if occurs_twice(h, sm) {
        Err(BlockError::AmbiguousBlockStart)
    } else if !occurs(h, em) {
        Err(BlockError::MissingBlockEnd)
    } else if occurs_twice(h, em) {
        Err(BlockError::AmbiguousBlockEnd)
    } else {
        let i = choose|i: int| occurs_at(h, sm, i);
        let j = choose|j: int| occurs_at(h, em, j);
        if j < i + sm.len() {
            Err(BlockError::InvertedBlock)
        } else {
            Ok(h.subrange(0, i + sm.len()) + new + h.subrange(j, h.len() as int))
        }
    }
}

/// The marker that pattern number `p` of the search stands for.
pub open spec fn marker_of(p: usize, title: Seq<u8>) -> Seq<u8> {
    if p == 0 {
        start_marker(title)
    } else {
        end_marker(title)
    }
}

/// The match `m` (pattern, start, end) covers some byte of `[i, i + len)`.
pub open spec fn overlaps(m: (usize, usize, usize), i: int, len: int) -> bool {
    m.1 < i + len && i < m.2
}

/// Relies on `aho_corasick::AhoCorasick::new_auto_configured` and its
/// `find_iter`: the non-overlapping matches of the two patterns in `hay`,
/// left to right, each as (pattern index, start, end). A scan reports a
/// match as soon as one ends, then goes on after it, so each occurrence
/// of a non-empty pattern shares a byte with a reported match.
#[verifier::external_body]
fn find_markers(hay: &[u8], first: &[u8], second: &[u8]) -> (r: Vec<(usize, usize, usize)>)
    requires
        first@.len() > 0,
        second@.len() > 0,
    ensures
        forall|k: int|
            0 <= k < r@.len() ==> {
                let m = #[trigger] r@[k];
                &&& m.0 == 0 || m.0 == 1
                &&& m.1 <= m.2 <= hay@.len()
                &&& hay@.subrange(m.1 as int, m.2 as int) == (if m.0 == 0 {
                    first@
                } else {
                    second@
                })
            },
        forall|k1: int, k2: int| 0 <= k1 < k2 < r@.len() ==> r@[k1].2 <= r@[k2].1,
        forall|i: int|
            occurs_at(hay@, first@, i) ==> exists|k: int|
                0 <= k < r@.len() && overlaps(#[trigger] r@[k], i, first@.len() as int),
        forall|i: int|
            occurs_at(hay@, second@, i) ==> exists|k: int|
                0 <= k < r@.len() && overlaps(#[trigger] r@[k], i, second@.len() as int),
{
    let searcher = aho_corasick::AhoCorasick::new_auto_configured(&[first, second]);
    searcher.find_iter(hay).map(|m| (m.pattern(), m.start(), m.end())).collect()
}


/// What the search hands back: true matches, left to right and apart, with
/// every occurrence of either marker sharing a byte with one of them.
spec fn reported(h: Seq<u8>, title: Seq<u8>, found: Seq<(usize, usize, usize)>) -> bool {
    &&& forall|k: int|
        0 <= k < found.len() ==> {
            let m = #[trigger] found[k];
            &&& m.0 == 0 || m.0 == 1
            &&& m.1 <= m.2 <= h.len()
            &&& h.subrange(m.1 as int, m.2 as int) == marker_of(m.0, title)
        }
    &&& forall|k1: int, k2: int| 0 <= k1 < k2 < found.len() ==> found[k1].2 <= found[k2].1
    &&& forall|p: usize, i: int|
        (p == 0 || p == 1) && #[trigger] occurs_at(h, marker_of(p, title), i) ==> exists|k: int|
            0 <= k < found.len() && overlaps(#[trigger] found[k], i, marker_of(p, title).len() as int)
}

/// Only the last byte of a marker is a line feed.
proof fn lemma_marker_lf_last(title: Seq<u8>, p: usize, x: int)
    requires
        line_free(title),
        0 <= x < marker_of(p, title).len() - 1,
    ensures
        marker_of(p, title)[x] != LF,
{
    let pre = if p == 0 {
        start_prefix()
    } else {
        end_prefix()
    };
    let m = marker_of(p, title);
    assert(m =~= pre + title + seq![LF]);
    if x < pre.len() {
        assert(m[x] == pre[x]);
        assert(pre[x] != LF);
    } else {
        assert(m[x] == title[x - pre.len()]);
    }
}

/// Two marker occurrences that share a byte are the same occurrence.
proof fn lemma_markers_apart(h: Seq<u8>, title: Seq<u8>, p: usize, i: int, q: usize, j: int)
    requires
        line_free(title),
        p == 0 || p == 1,
        q == 0 || q == 1,
        occurs_at(h, marker_of(p, title), i),
        occurs_at(h, marker_of(q, title), j),
        i <= j < i + marker_of(p, title).len(),
    ensures
        p == q,
        i == j,
{
    let mp = marker_of(p, title);
    let mq = marker_of(q, title);
    let ep = i + mp.len();
    let eq = j + mq.len();
    assert(mp[mp.len() - 1] == LF);
    assert(mq[mq.len() - 1] == LF);
    assert(forall|x: int| i <= x < ep ==> h[x] == #[trigger] mp[x - i]) by {
        assert forall|x: int| i <= x < ep implies h[x] == #[trigger] mp[x - i] by {
            assert(h.subrange(i, ep)[x - i] == h[x]);
        }
    }
    assert(forall|x: int| j <= x < eq ==> h[x] == #[trigger] mq[x - j]) by {
        assert forall|x: int| j <= x < eq implies h[x] == #[trigger] mq[x - j] by {
            assert(h.subrange(j, eq)[x - j] == h[x]);
        }
    }
    if eq < ep {
        assert(mp[eq - 1 - i] == LF);
        lemma_marker_lf_last(title, p, eq - 1 - i);
    } else if eq > ep {
        assert(mq[ep - 1 - j] == LF);
        lemma_marker_lf_last(title, q, ep - 1 - j);
    } else if i < j {
        assert(p == 0 && q == 1);
        assert(mq[0] == 47u8);
        assert(mp[2] == 32u8);
        assert(mp[j - i] == mq[0]);
    }
}

/// Each occurrence of a marker is itself one of the reported matches.
proof fn lemma_occurrence_reported(
    h: Seq<u8>,
    title: Seq<u8>,
    found: Seq<(usize, usize, usize)>,
    p: usize,
    i: int,
) -> (k: int)
    requires
        line_free(title),
        reported(h, title, found),
        p == 0 || p == 1,
        occurs_at(h, marker_of(p, title), i),
    ensures
        0 <= k < found.len(),
        found[k].0 == p,
        found[k].1 == i,
{
    let k = choose|k: int|
        0 <= k < found.len() && overlaps(#[trigger] found[k], i, marker_of(p, title).len() as int);
    let m = found[k];
    assert(occurs_at(h, marker_of(m.0, title), m.1 as int));
    if m.1 <= i {
        lemma_markers_apart(h, title, m.0, m.1 as int, p, i);
    } else {
        lemma_markers_apart(h, title, p, i, m.0, m.1 as int);
    }
    k
}

/// A reported match is an occurrence of its marker.
proof fn lemma_match_occurs(h: Seq<u8>, title: Seq<u8>, found: Seq<(usize, usize, usize)>, k: int)
    requires
        reported(h, title, found),
        0 <= k < found.len(),
    ensures
        occurs_at(h, marker_of(found[k].0, title), found[k].1 as int),
        found[k].2 == found[k].1 + marker_of(found[k].0, title).len(),
{
    let m = found[k];
    assert(h.subrange(m.1 as int, m.2 as int).len() == m.2 - m.1);
}

/// No match for pattern `p` means no occurrence of its marker.
proof fn lemma_bucket_empty(h: Seq<u8>, title: Seq<u8>, found: Seq<(usize, usize, usize)>, p: usize)
    requires
        line_free(title),
        reported(h, title, found),
        p == 0 || p == 1,
        forall|q: int| 0 <= q < found.len() ==> found[q].0 != p,
    ensures
        !occurs(h, marker_of(p, title)),
{
    assert forall|i: int| !occurs_at(h, marker_of(p, title), i) by {
        if occurs_at(h, marker_of(p, title), i) {
            let k = lemma_occurrence_reported(h, title, found, p, i);
        }
    }
}

/// A single match for pattern `p` is the one occurrence of its marker.
proof fn lemma_bucket_single(
    h: Seq<u8>,
    title: Seq<u8>,
    found: Seq<(usize, usize, usize)>,
    p: usize,
    f: int,
)
    requires
        line_free(title),
        reported(h, title, found),
        p == 0 || p == 1,
        0 <= f < found.len(),
        found[f].0 == p,
        forall|q: int| 0 <= q < found.len() && found[q].0 == p ==> q == f,
    ensures
        occurs(h, marker_of(p, title)),
        !occurs_twice(h, marker_of(p, title)),
        forall|i: int| occurs_at(h, marker_of(p, title), i) ==> i == found[f].1,
{
    lemma_match_occurs(h, title, found, f);
    assert forall|i: int| occurs_at(h, marker_of(p, title), i) implies i == found[f].1 by {
        let k = lemma_occurrence_reported(h, title, found, p, i);
    }
}

/// Two matches for pattern `p` are two occurrences of its marker.
proof fn lemma_bucket_double(
    h: Seq<u8>,
    title: Seq<u8>,
    found: Seq<(usize, usize, usize)>,
    p: usize,
    f: int,
    g: int,
)
    requires
        reported(h, title, found),
        0 <= f < found.len(),
        0 <= g < found.len(),
        f != g,
        found[f].0 == p,
        found[g].0 == p,
    ensures
        occurs_twice(h, marker_of(p, title)),
{
    lemma_match_occurs(h, title, found, f);
    lemma_match_occurs(h, title, found, g);
    assert(marker_of(p, title).len() > 0);
    assert(found[f].1 != found[g].1);
}

/// UTF-8 encoding distributes over concatenation.
proof fn lemma_encode_concat(a: Seq<char>, b: Seq<char>)
    ensures
        encode_utf8(a + b) == encode_utf8(a) + encode_utf8(b),
    decreases a.len(),
{
    if a.len() == 0 {
        assert(a + b =~= b);
        assert(encode_utf8(a) =~= Seq::<u8>::empty());
        assert(encode_utf8(a) + encode_utf8(b) =~= encode_utf8(b));
    } else {
        lemma_encode_concat(a.drop_first(), b);
        assert((a + b).drop_first() =~= a.drop_first() + b);
        assert((a + b)[0] == a[0]);
        assert(encode_utf8(a + b) =~= encode_utf8(a) + encode_utf8(b));
    }
}

/// An ASCII byte of valid UTF-8 starts a character.
proof fn lemma_boundary_at_ascii(b: Seq<u8>, i: int)
    requires
        valid_utf8(b),
        0 <= i < b.len(),
        b[i] < 128,
    ensures
        is_char_boundary(b, i),
{
    is_char_boundary_iff_not_is_continuation_byte(b, i);
}

/// In valid UTF-8 a character starts right after a line feed.
proof fn lemma_boundary_after_lf(b: Seq<u8>, i: int)
    requires
        valid_utf8(b),
        0 < i <= b.len(),
        b[i - 1] == LF,
    ensures
        is_char_boundary(b, i),
{
    if i == b.len() {
        is_char_boundary_start_end_of_seq(b);
    } else {
        lemma_boundary_at_ascii(b, i - 1);
        valid_utf8_split(b, i - 1);
        let tail = b.subrange(i - 1, b.len() as int);
        assert(tail[0] == LF);
        assert(length_of_first_scalar(tail) == 1);
        reveal_with_fuel(valid_utf8, 2);
        assert(valid_utf8(pop_first_scalar(tail)));
        reveal_with_fuel(is_char_boundary, 2);
        assert(is_char_boundary(tail, 1));
        is_char_boundary_iff_not_is_continuation_byte(tail, 1);
        assert(tail[1] == b[i]);
        is_char_boundary_iff_not_is_continuation_byte(b, i);
    }
}

/// The marker line for `title`: the start marker when `start`, else the end marker.
fn marker_bytes(start: bool, title: &[u8]) -> (m: Vec<u8>)
    ensures
        m@ == (if start {
            start_marker(title@)
        } else {
            end_marker(title@)
        }),
{
    let mut m: Vec<u8> = if start {
        vec![47u8, 47, 32, 83, 84, 65, 82, 84, 32, 66, 76, 79, 67, 75, 32]
    } else {
        vec![47u8, 47, 32, 69, 78, 68, 32, 66, 76, 79, 67, 75, 32]
    };
    let ghost pre = m@;
    assert(pre =~= (if start {
        start_prefix()
    } else {
        end_prefix()
    }));
    let n = title.len();
    let mut k: usize = 0;
    while k < n
        invariant
            n == title@.len(),
            k <= n,
            m@ == pre + title@.subrange(0, k as int),
        decreases n - k,
    {
        m.push(title[k]);
        k = k + 1;
        assert(m@ =~= pre + title@.subrange(0, k as int));
    }
    m.push(LF);
    assert(title@.subrange(0, n as int) =~= title@);
    m
}

/// Replaces the interior of the block titled `title` in `file` by `new`: the
/// text up to the end of the line `// START BLOCK {title}`, then `new`, then
/// the text from the line `// END BLOCK {title}` on. When the title holds no
/// line break the outcome, as UTF-8, is exactly `patched`.
pub fn replace_block(file: &str, title: &str, new: &str) -> (r: Result<String, BlockError>)
    ensures
        line_free(title.spec_bytes()) ==> match r {
            Ok(out) => patched(file.spec_bytes(), title.spec_bytes(), new.spec_bytes()) == Ok::<
                Seq<u8>,
                BlockError,
            >(encode_utf8(out@)),
            Err(e) => patched(file.spec_bytes(), title.spec_bytes(), new.spec_bytes()) == Err::<
                Seq<u8>,
                BlockError,
            >(e),
        },
{
    let h = file.as_bytes();
    let tb = title.as_bytes();
    let sm = marker_bytes(true, tb);
    let em = marker_bytes(false, tb);
    let found = find_markers(h, sm.as_slice(), em.as_slice());
    let ghost hb = h@;
    let ghost t = tb@;
    assert(reported(hb, t, found@)) by {
        assert forall|p: usize, i: int|
            (p == 0 || p == 1) && #[trigger] occurs_at(hb, marker_of(p, t), i) implies exists|k: int|
                0 <= k < found@.len() && overlaps(#[trigger] found@[k], i, marker_of(p, t).len() as int) by {
            if p == 0 {
                assert(occurs_at(hb, sm@, i));
            } else {
                assert(occurs_at(hb, em@, i));
            }
        }
    }
    let n = found.len();
    let mut n_start: usize = 0;
    let mut start_end: usize = 0;
    let mut n_end: usize = 0;
    let mut end_begin: usize = 0;
    let ghost mut fs: int = 0;
    let ghost mut ss: int = 0;
    let ghost mut fe: int = 0;
    let ghost mut se: int = 0;
    let mut k: usize = 0;
    while k < n
        invariant
            n == found@.len(),
            k <= n,
            reported(hb, t, found@),
            n_start <= 2,
            n_end <= 2,
            n_start == 0 ==> forall|q: int| 0 <= q < k ==> found@[q].0 != 0,
            n_start >= 1 ==> 0 <= fs < k && found@[fs].0 == 0 && start_end == found@[fs].2,
            n_start == 1 ==> forall|q: int| 0 <= q < k && found@[q].0 == 0 ==> q == fs,
            n_start == 2 ==> 0 <= ss < k && ss != fs && found@[ss].0 == 0,
            n_end == 0 ==> forall|q: int| 0 <= q < k ==> found@[q].0 != 1,
            n_end >= 1 ==> 0 <= fe < k && found@[fe].0 == 1 && end_begin == found@[fe].1,
            n_end == 1 ==> forall|q: int| 0 <= q < k && found@[q].0 == 1 ==> q == fe,
            n_end == 2 ==> 0 <= se < k && se != fe && found@[se].0 == 1,
        decreases n - k,
    {
        let m = found[k];
        assert(m == found@[k as int]);
        if m.0 == 0 {
            if n_start == 0 {
                n_start = 1;
                start_end = m.2;
                proof {
                    fs = k as int;
                }
            } else if n_start == 1 {
                n_start = 2;
                proof {
                    ss = k as int;
                }
            }
        } else {
            if n_end == 0 {
                n_end = 1;
                end_begin = m.1;
                proof {
                    fe = k as int;
                }
            } else if n_end == 1 {
                n_end = 2;
                proof {
                    se = k as int;
                }
            }
        }
        k = k + 1;
    }
    if n_start == 0 {
        proof {
            if line_free(t) {
                lemma_bucket_empty(hb, t, found@, 0);
            }
        }
        return Err(BlockError::MissingBlockStart);
    }
    if n_start == 2 {
        proof {
            lemma_bucket_double(hb, t, found@, 0, fs, ss);
        }
        return Err(BlockError::AmbiguousBlockStart);
    }
    proof {
        lemma_match_occurs(hb, t, found@, fs);
        if line_free(t) {
            lemma_bucket_single(hb, t, found@, 0, fs);
        }
    }
    if n_end == 0 {
        proof {
            if line_free(t) {
                lemma_bucket_empty(hb, t, found@, 1);
            }
        }
        return Err(BlockError::MissingBlockEnd);
    }
    if n_end == 2 {
        proof {
            lemma_bucket_double(hb, t, found@, 1, fe, se);
        }
        return Err(BlockError::AmbiguousBlockEnd);
    }
    proof {
        lemma_match_occurs(hb, t, found@, fe);
        if line_free(t) {
            lemma_bucket_single(hb, t, found@, 1, fe);
        }
    }
    if end_begin < start_end {
        return Err(BlockError::InvertedBlock);
    }
    proof {
        encode_utf8_valid_utf8(file@);
        let sl = start_marker(t).len();
        assert(hb[start_end - 1] == hb.subrange(start_end - sl, start_end as int)[sl - 1]);
        lemma_boundary_after_lf(hb, start_end as int);
        assert(hb[end_begin as int] == hb.subrange(
            end_begin as int,
            end_begin + end_marker(t).len(),
        )[0]);
        lemma_boundary_at_ascii(hb, end_begin as int);
    }
    let (left, _) = file.split_at(start_end);
    let (_, right) = file.split_at(end_begin);
    let mut out = String::from_str(left);
    out.append(new);
    out.append(right);
    proof {
        lemma_encode_concat(left@, new@);
        lemma_encode_concat(left@ + new@, right@);
    }
    Ok(out)
}

/// After a successful patch the text up to the end of the start marker is
/// kept, the new interior follows it exactly, and then comes the old text from
/// the end marker on; both markers still stand around the new interior.
pub proof fn lemma_block_round_trip(h: Seq<u8>, title: Seq<u8>, new: Seq<u8>)
    requires
        patched(h, title, new) is Ok,
    ensures
        ({
            let out = patched(h, title, new)->Ok_0;
            let sm = start_marker(title);
            let em = end_marker(title);
            exists|i: int, j: int|
                #![trigger occurs_at(h, sm, i), occurs_at(h, em, j)]
                {
                    let a = i + sm.len();
                    let b = a + new.len();
                    &&& occurs_at(h, sm, i)
                    &&& occurs_at(h, em, j)
                    &&& a <= j
                    &&& out.subrange(0, a) == h.subrange(0, a)
                    &&& out.subrange(a, b) == new
                    &&& out.subrange(b, out.len() as int) == h.subrange(j, h.len() as int)
                    &&& occurs_at(out, sm, i)
                    &&& occurs_at(out, em, b)
                }
        }),
{
    let sm = start_marker(title);
    let em = end_marker(title);
    let out = patched(h, title, new)->Ok_0;
    let i = choose|i: int| occurs_at(h, sm, i);
    let j = choose|j: int| occurs_at(h, em, j);
    let a = i + sm.len();
    let b = a + new.len();
    assert(out == h.subrange(0, a) + new + h.subrange(j, h.len() as int));
    assert(out.subrange(0, a) =~= h.subrange(0, a));
    assert(out.subrange(a, b) =~= new);
    assert(out.subrange(b, out.len() as int) =~= h.subrange(j, h.len() as int));
    assert(out.subrange(i, a) =~= h.subrange(i, a));
    assert(out.subrange(b, b + em.len()) =~= h.subrange(j, j + em.len()));
}

/// A start marker that occurs twice is refused as ambiguous: the patch never
/// picks one of the two.
pub proof fn lemma_duplicate_start_refused(h: Seq<u8>, title: Seq<u8>, new: Seq<u8>, i: int, j: int)
    requires
        i != j,
        occurs_at(h, start_marker(title), i),
        occurs_at(h, start_marker(title), j),
    ensures
        patched(h, title, new) == Err::<Seq<u8>, BlockError>(BlockError::AmbiguousBlockStart),
{
}

/// An end marker that occurs twice makes the patch fail.
pub proof fn lemma_duplicate_end_refused(h: Seq<u8>, title: Seq<u8>, new: Seq<u8>, i: int, j: int)
    requires
        i != j,
        occurs_at(h, end_marker(title), i),
        occurs_at(h, end_marker(title), j),
    ensures
        patched(h, title, new) is Err,
{
}

/// An end marker that stands before the start marker makes the patch fail:
/// no region of negative length is ever cut out.
pub proof fn lemma_inverted_block_refused(h: Seq<u8>, title: Seq<u8>, new: Seq<u8>, i: int, j: int)
    requires
        occurs_at(h, start_marker(title), i),
        occurs_at(h, end_marker(title), j),
        j < i,
    ensures
        patched(h, title, new) is Err,
{
    let sm = start_marker(title);
    let em = end_marker(title);
    if occurs(h, sm) && !occurs_twice(h, sm) && occurs(h, em) && !occurs_twice(h, em) {
        let i2 = choose|i: int| occurs_at(h, sm, i);
        let j2 = choose|j: int| occurs_at(h, em, j);
        assert(i2 == i);
        assert(j2 == j);
    }
}

} // verus!
