//! Character-sequence specifications and verified string utilities: prefix,
//! suffix and substring tests, whitespace trimming, and path-segment
//! extraction, all stated over `Seq<char>` views.

use vstd::prelude::*;

verus! {

/// The characters that trimming removes: the Unicode White_Space set.
pub open spec fn is_space_char(c: char) -> bool {
    c == ' ' || c == '\t' || c == '\n' || c == '\r' || c == '\u{b}' || c == '\u{c}' || c
        == '\u{85}' || c == '\u{a0}' || c == '\u{1680}' || c == '\u{2000}' || c == '\u{2001}' || c
        == '\u{2002}' || c == '\u{2003}' || c == '\u{2004}' || c == '\u{2005}' || c == '\u{2006}'
        || c == '\u{2007}' || c == '\u{2008}' || c == '\u{2009}' || c == '\u{200a}' || c
        == '\u{2028}' || c == '\u{2029}' || c == '\u{202f}' || c == '\u{205f}' || c == '\u{3000}'
}

/// `s` begins with the prefix `p`.
pub open spec fn starts_with(s: Seq<char>, p: Seq<char>) -> bool {
    p.len() <= s.len() && s.subrange(0, p.len() as int) == p
}

/// `s` ends with the suffix `p`.
pub open spec fn ends_with(s: Seq<char>, p: Seq<char>) -> bool {
    p.len() <= s.len() && s.subrange(s.len() - p.len(), s.len() as int) == p
}

/// `p` occurs in `s` at position `i`.
pub open spec fn occurs_at(s: Seq<char>, p: Seq<char>, i: int) -> bool {
    0 <= i && i + p.len() <= s.len() && s.subrange(i, i + p.len()) == p
}

/// `p` occurs somewhere in `s`.
pub open spec fn contains_seq(s: Seq<char>, p: Seq<char>) -> bool {
    exists|i: int| occurs_at(s, p, i)
}

/// `s` without its leading whitespace.
pub open spec fn trim_start_spec(s: Seq<char>) -> Seq<char>
    decreases s.len(),
{
    if s.len() > 0 && is_space_char(s[0]) {
        trim_start_spec(s.drop_first())
    } else {
        s
    }
}

/// `s` without its trailing whitespace.
pub open spec fn trim_end_spec(s: Seq<char>) -> Seq<char>
    decreases s.len(),
{
    if s.len() > 0 && is_space_char(s.last()) {
        trim_end_spec(s.drop_last())
    } else {
        s
    }
}

/// `s` without leading and trailing whitespace.
pub open spec fn trim_spec(s: Seq<char>) -> Seq<char> {
    trim_end_spec(trim_start_spec(s))
}

/// Trimming the front keeps a suffix: it equals `s.subrange(a, s.len())` for
/// the first position `a` that does not hold whitespace.
proof fn lemma_trim_start_range(s: Seq<char>, a: int)
    requires
        0 <= a <= s.len(),
        forall|j: int| 0 <= j < a ==> is_space_char(s[j]),
        a == s.len() || !is_space_char(s[a]),
    ensures
        trim_start_spec(s) == s.subrange(a, s.len() as int),
    decreases a,
{
    if a == 0 {
        assert(s.subrange(0, s.len() as int) =~= s);
    } else {
        lemma_trim_start_range(s.drop_first(), a - 1);
        assert(s.drop_first().subrange(a - 1, s.len() - 1) =~= s.subrange(a, s.len() as int));
    }
}

/// Trimming the back keeps a prefix: it equals `s.subrange(0, b)` for the
/// position `b` after which only whitespace follows.
proof fn lemma_trim_end_range(s: Seq<char>, b: int)
    requires
        0 <= b <= s.len(),
        forall|j: int| b <= j < s.len() ==> is_space_char(s[j]),
        b == 0 || !is_space_char(s[b - 1]),
    ensures
        trim_end_spec(s) == s.subrange(0, b),
    decreases s.len(),
{
    if b == s.len() {
        assert(s.subrange(0, s.len() as int) =~= s);
    } else {
        lemma_trim_end_range(s.drop_last(), b);
        assert(s.drop_last().subrange(0, b) =~= s.subrange(0, b));
    }
}

/// Whether `c` is one of the characters that trimming removes: the Unicode
/// White_Space set.
pub fn char_is_space(c: char) -> (r: bool)
    ensures
        r == is_space_char(c),
{
    c == ' ' || c == '\t' || c == '\n' || c == '\r' || c == '\u{b}' || c == '\u{c}' || c
        == '\u{85}' || c == '\u{a0}' || c == '\u{1680}' || c == '\u{2000}' || c == '\u{2001}' || c
        == '\u{2002}' || c == '\u{2003}' || c == '\u{2004}' || c == '\u{2005}' || c == '\u{2006}'
        || c == '\u{2007}' || c == '\u{2008}' || c == '\u{2009}' || c == '\u{200a}' || c
        == '\u{2028}' || c == '\u{2029}' || c == '\u{202f}' || c == '\u{205f}' || c == '\u{3000}'
}

/// The position of the first non-whitespace character of `s`, or the length
/// of `s` when it holds only whitespace.
fn first_non_space(s: &str) -> (a: usize)
    ensures
        a <= s@.len(),
        forall|j: int| 0 <= j < a ==> is_space_char(s@[j]),
        a == s@.len() || !is_space_char(s@[a as int]),
{
    let n = s.unicode_len();
    let mut a: usize = 0;
    while a < n
        invariant
            a <= n,
            n == s@.len(),
            forall|j: int| 0 <= j < a ==> is_space_char(s@[j]),
        decreases n - a,
    {
        if !char_is_space(s.get_char(a)) {
            return a;
        }
        a = a + 1;
    }
    a
}

/// The position after the last non-whitespace character of `s` at or past
/// `a`, or `a` when only whitespace follows it.
fn last_non_space_end(s: &str, a: usize) -> (b: usize)
    requires
        a <= s@.len(),
    ensures
        a <= b <= s@.len(),
        forall|j: int| b <= j < s@.len() ==> is_space_char(s@[j]),
        b == a || !is_space_char(s@[b - 1]),
{
    let n = s.unicode_len();
    let mut b: usize = n;
    while b > a
        invariant
            a <= b <= n,
            n == s@.len(),
            forall|j: int| b <= j < s@.len() ==> is_space_char(s@[j]),
        decreases b,
    {
        if !char_is_space(s.get_char(b - 1)) {
            return b;
        }
        b = b - 1;
    }
    b
}

/// `s` without leading and trailing whitespace, as its own `String`.
pub fn trim(s: &str) -> (r: String)
    ensures
        r@ == trim_spec(s@),
{
    let a = first_non_space(s);
    let b = last_non_space_end(s, a);
    let t = s.substring_char(a, b);
    proof {
        lemma_trim_start_range(s@, a as int);
        let t0 = s@.subrange(a as int, s@.len() as int);
        lemma_trim_end_range(t0, b - a);
        assert(t0.subrange(0, b - a) =~= s@.subrange(a as int, b as int));
    }
    t.to_owned()
}

/// Whether the views of `a` and `b` are the same character sequence.
pub fn str_eq(a: &str, b: &str) -> (r: bool)
    ensures
        r == (a@ == b@),
{
    let n = a.unicode_len();
    if n != b.unicode_len() {
        return false;
    }
    let mut i: usize = 0;
    while i < n
        invariant
            i <= n,
            n == a@.len(),
            n == b@.len(),
            forall|j: int| 0 <= j < i ==> a@[j] == b@[j],
        decreases n - i,
    {
        if a.get_char(i) != b.get_char(i) {
            return false;
        }
        i = i + 1;
    }
    proof {
        assert(a@ =~= b@);
    }
    true
}

/// Whether `s` begins with `p`.
pub fn str_starts_with(s: &str, p: &str) -> (r: bool)
    ensures
        r == starts_with(s@, p@),
{
    let pn = p.unicode_len();
    let sn = s.unicode_len();
    if pn > sn {
        return false;
    }
    let mut i: usize = 0;
    while i < pn
        invariant
            i <= pn,
            pn == p@.len(),
            sn == s@.len(),
            pn <= sn,
            forall|j: int| 0 <= j < i ==> s@[j] == p@[j],
        decreases pn - i,
    {
        if s.get_char(i) != p.get_char(i) {
            proof {
                assert(s@.subrange(0, p@.len() as int)[i as int] == s@[i as int]);
            }
            return false;
        }
        i = i + 1;
    }
    proof {
        assert(s@.subrange(0, p@.len() as int) =~= p@);
    }
    true
}

/// Whether `s` ends with `p`.
pub fn str_ends_with(s: &str, p: &str) -> (r: bool)
    ensures
        r == ends_with(s@, p@),
{
    let pn = p.unicode_len();
    let sn = s.unicode_len();
    if pn > sn {
        return false;
    }
    let off = sn - pn;
    let mut i: usize = 0;
    while i < pn
        invariant
            i <= pn,
            pn == p@.len(),
            sn == s@.len(),
            pn <= sn,
            off == sn - pn,
            forall|j: int| 0 <= j < i ==> s@[off + j] == p@[j],
        decreases pn - i,
    {
        if s.get_char(off + i) != p.get_char(i) {
            proof {
                assert(s@.subrange(s@.len() - p@.len(), s@.len() as int)[i as int] == s@[
                    off + i
                ]);
            }
            return false;
        }
        i = i + 1;
    }
    proof {
        assert(s@.subrange(s@.len() - p@.len(), s@.len() as int) =~= p@);
    }
    true
}

/// Whether `p` occurs in `s` at position `i`.
fn match_at(s: &str, p: &str, i: usize) -> (r: bool)
    requires
        i + p@.len() <= s@.len(),
    ensures
        r == occurs_at(s@, p@, i as int),
{
    let pn = p.unicode_len();
    let sn = s.unicode_len();
    let mut j: usize = 0;
    while j < pn
        invariant
            j <= pn,
            pn == p@.len(),
            sn == s@.len(),
            i + pn <= sn,
            forall|t: int| 0 <= t < j ==> s@[i + t] == p@[t],
        decreases pn - j,
    {
        if s.get_char(i + j) != p.get_char(j) {
            proof {
                assert(s@.subrange(i as int, i + p@.len())[j as int] == s@[i + j]);
            }
            return false;
        }
        j = j + 1;
    }
    proof {
        assert(s@.subrange(i as int, i + p@.len()) =~= p@);
    }
    true
}

/// Whether `p` occurs somewhere in `s`.
pub fn str_contains(s: &str, p: &str) -> (r: bool)
    ensures
        r == contains_seq(s@, p@),
{
    let pn = p.unicode_len();
    let sn = s.unicode_len();
    if pn > sn {
        proof {
            assert(forall|i: int| !occurs_at(s@, p@, i));
        }
        return false;
    }
    if pn == 0 {
        proof {
            assert(s@.subrange(0, 0) =~= p@);
            assert(occurs_at(s@, p@, 0));
        }
        return true;
    }
    let last = sn - pn;
    let mut i: usize = 0;
    while i <= last
        invariant
            i <= last + 1,
            pn == p@.len(),
            sn == s@.len(),
            1 <= pn <= sn,
            last == sn - pn,
            forall|k: int| 0 <= k < i ==> !occurs_at(s@, p@, k),
        decreases last + 1 - i,
    {
        if match_at(s, p, i) {
            return true;
        }
        i = i + 1;
    }
    proof {
        assert forall|k: int| !occurs_at(s@, p@, k) by {
            if 0 <= k < i {
                assert(!occurs_at(s@, p@, k));
            }
        }
    }
    false
}

/// The suffix of `s` after its last `/`, or all of `s` when it has none.
pub open spec fn after_last_slash(s: Seq<char>) -> Seq<char>
    decreases s.len(),
{
    if s.len() == 0 {
        s
    } else if s.last() == '/' {
        Seq::empty()
    } else {
        after_last_slash(s.drop_last()).push(s.last())
    }
}

/// The final path segment of `s`, as `Path::file_name` sees it: trailing
/// `/` characters and a final `.` piece name nothing and are dropped in
/// turn; a then-final `..` piece names nothing at all and yields the empty
/// sequence, and otherwise the segment is everything after the last
/// remaining `/`.
pub open spec fn final_segment(s: Seq<char>) -> Seq<char>
    decreases s.len(),
{
    if s.len() == 0 {
        Seq::empty()
    } else if s.last() == '/' {
        final_segment(s.drop_last())
    } else {
        let piece = after_last_slash(s);
        if piece == seq!['.'] {
            final_segment(s.drop_last())
        } else if piece == seq!['.', '.'] {
            Seq::empty()
        } else {
            piece
        }
    }
}

/// Cutting trailing slashes off a prefix of `s` leaves its final segment
/// alone.
proof fn lemma_final_segment_strip(s: Seq<char>, e: int, e1: int)
    requires
        0 <= e1 <= e <= s.len(),
        forall|j: int| e1 <= j < e ==> s[j] == '/',
    ensures
        final_segment(s.take(e)) == final_segment(s.take(e1)),
    decreases e - e1,
{
    if e1 < e {
        assert(s.take(e).last() == s[e - 1]);
        assert(s.take(e).drop_last() =~= s.take(e - 1));
        lemma_final_segment_strip(s, e - 1, e1);
    }
}

/// The suffix after the last slash equals `s.subrange(b, s.len())` for the
/// position `b` that follows the last `/` of `s`.
proof fn lemma_after_last_slash_range(s: Seq<char>, b: int)
    requires
        0 <= b <= s.len(),
        forall|j: int| b <= j < s.len() ==> s[j] != '/',
        b == 0 || s[b - 1] == '/',
    ensures
        after_last_slash(s) == s.subrange(b, s.len() as int),
    decreases s.len(),
{
    if s.len() == 0 {
        assert(s.subrange(0, 0) =~= s);
    } else if s.last() == '/' {
        assert(b == s.len());
        assert(s.subrange(s.len() as int, s.len() as int) =~= Seq::<char>::empty());
    } else {
        lemma_after_last_slash_range(s.drop_last(), b);
        assert(s.drop_last().subrange(b, s.len() - 1) =~= s.subrange(b, s.len() - 1));
        assert(s.subrange(b, s.len() - 1).push(s.last()) =~= s.subrange(b, s.len() as int));
    }
}

/// The position after the last character of `s[..e]` that is not a trailing
/// `/`.
fn strip_trailing_slashes(s: &str, e: usize) -> (r: usize)
    requires
        e <= s@.len(),
    ensures
        r <= e,
        forall|j: int| r <= j < e ==> s@[j] == '/',
        r == 0 || s@[r - 1] != '/',
{
    let mut r: usize = e;
    while r > 0
        invariant
            r <= e <= s@.len(),
            forall|j: int| r <= j < e ==> s@[j] == '/',
        decreases r,
    {
        if s.get_char(r - 1) != '/' {
            return r;
        }
        r = r - 1;
    }
    r
}

/// The position right after the last `/` of `s` before `e`, or `0` when no
/// `/` stands before `e`.
fn segment_start(s: &str, e: usize) -> (b: usize)
    requires
        e <= s@.len(),
    ensures
        b <= e,
        forall|j: int| b <= j < e ==> s@[j] != '/',
        b == 0 || s@[b - 1] == '/',
{
    let mut b: usize = e;
    while b > 0
        invariant
            b <= e <= s@.len(),
            forall|j: int| b <= j < e ==> s@[j] != '/',
        decreases b,
    {
        if s.get_char(b - 1) == '/' {
            return b;
        }
        b = b - 1;
    }
    b
}

/// The final path segment of `s`, as its own `String`, per `final_segment`:
/// trailing slashes and trailing `.` pieces are dropped, a then-final `..`
/// piece yields the empty string, and otherwise everything after the last
/// remaining `/` is the segment.
pub fn last_path_segment(s: &str) -> (r: String)
    ensures
        r@ == final_segment(s@),
{
    let n = s.unicode_len();
    let mut e: usize = n;
    proof {
        assert(s@.take(n as int) =~= s@);
    }
    loop
        invariant
            e <= n,
            n == s@.len(),
            final_segment(s@.take(e as int)) == final_segment(s@),
        decreases e,
    {
        let e1 = strip_trailing_slashes(s, e);
        proof {
            lemma_final_segment_strip(s@, e as int, e1 as int);
        }
        if e1 == 0 {
            proof {
                assert(s@.take(0) =~= Seq::<char>::empty());
            }
            return String::new();
        }
        let b = segment_start(s, e1);
        let ghost te = s@.take(e1 as int);
        proof {
            lemma_after_last_slash_range(te, b as int);
            assert(te.last() == s@[e1 - 1]);
            assert(te.subrange(b as int, e1 as int) =~= s@.subrange(b as int, e1 as int));
        }
        let plen = e1 - b;
        if plen == 1 && s.get_char(b) == '.' {
            proof {
                assert(s@.subrange(b as int, e1 as int) =~= seq!['.']);
                assert(te.drop_last() =~= s@.take(e1 - 1));
            }
            e = e1 - 1;
        } else if plen == 2 && s.get_char(b) == '.' && s.get_char(b + 1) == '.' {
            proof {
                assert(s@.subrange(b as int, e1 as int) =~= seq!['.', '.']);
            }
            return String::new();
        } else {
            proof {
                let piece = s@.subrange(b as int, e1 as int);
                if piece == seq!['.'] {
                    assert(piece.len() == 1 && piece[0] == '.');
                    assert(s@[b as int] == '.');
                }
                if piece == seq!['.', '.'] {
                    assert(piece.len() == 2 && piece[0] == '.' && piece[1] == '.');
                    assert(s@[b as int] == '.' && s@[b + 1] == '.');
                }
            }
            let t = s.substring_char(b, e1);
            return t.to_owned();
        }
    }
}

} // verus!
