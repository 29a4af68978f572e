//! Character-sequence helpers shared by the message codec and the handshake.
use vstd::prelude::*;
use vstd::string::*;

verus! {

/// Whether `a` and `b` are the same character up to ASCII case.
pub open spec fn char_eq_ignore_case(a: char, b: char) -> bool {
    ||| a as u32 == b as u32
    ||| (65 <= a as u32 <= 90 && b as u32 == a as u32 + 32)
    ||| (65 <= b as u32 <= 90 && a as u32 == b as u32 + 32)
}

/// Whether two character sequences are equal up to ASCII case.
pub open spec fn eq_ignore_case(a: Seq<char>, b: Seq<char>) -> bool {
    &&& a.len() == b.len()
    &&& forall|i: int| 0 <= i < a.len() ==> char_eq_ignore_case(#[trigger] a[i], b[i])
}

pub fn chars_eq_ignore_case(a: char, b: char) -> (r: bool)
    ensures
        r == char_eq_ignore_case(a, b),
{
    a as u32 == b as u32 || (65 <= a as u32 && a as u32 <= 90 && b as u32 == a as u32 + 32) || (65 <= b as u32 && b as u32 <= 90
        && a as u32 == b as u32 + 32)
}

/// Compares two strings character by character, ignoring ASCII case.
pub fn str_eq_ignore_case(a: &str, b: &str) -> (r: bool)
    ensures
        r == eq_ignore_case(a@, b@),
{
    let n = a.unicode_len();
    if n != b.unicode_len() {
        return false;
    }
    let mut i: usize = 0;
    while i < n
        invariant
            n == a@.len() == b@.len(),
            i <= n,
            forall|j: int| 0 <= j < i ==> char_eq_ignore_case(#[trigger] a@[j], b@[j]),
        decreases n - i,
    {
        if !chars_eq_ignore_case(a.get_char(i), b.get_char(i)) {
            return false;
        }
        i += 1;
    }
    true
}

/// Copies the characters of a string slice into a vector.
pub fn chars_of(s: &str) -> (r: Vec<char>)
    ensures
        r@ == s@,
{
    let mut v: Vec<char> = Vec::new();
    broadcast use vstd::string::group_string_axioms;

    for c in it: s.chars()
        invariant
            it.seq() == s@,
            v@ == it.seq().take(it.index() as int),
    {
        v.push(c);
    }
    v
}

} // verus!

verus! {

/// The first position at or after `i` where `pat` occurs in `s`, or -1.
pub open spec fn find_from(s: Seq<char>, pat: Seq<char>, i: int) -> int
    decreases s.len() + 1 - i,
{
    if i < 0 || i + pat.len() > s.len() {
        -1
    } else if s.subrange(i, i + pat.len()) == pat {
        i
    } else {
        find_from(s, pat, i + 1)
    }
}

/// The pieces of `s[i..]` between the occurrences of a non-empty `pat`.
pub open spec fn split_from(s: Seq<char>, pat: Seq<char>, i: int) -> Seq<Seq<char>>
    decreases s.len() - i,
{
    let k = find_from(s, pat, i);
    if i < 0 || i > s.len() || pat.len() == 0 {
        Seq::empty()
    } else if k < i || k + pat.len() > s.len() {
        seq![s.subrange(i, s.len() as int)]
    } else {
        seq![s.subrange(i, k)] + split_from(s, pat, k + pat.len())
    }
}

/// The pieces of `s` between the occurrences of a non-empty `pat`.
pub open spec fn split(s: Seq<char>, pat: Seq<char>) -> Seq<Seq<char>> {
    split_from(s, pat, 0)
}

pub open spec fn is_space(c: char) -> bool {
    c == ' ' || c == '\t' || c == '\n' || c == '\r' || c == '\x0c'
}

/// Index of the first non-space character at or after `i`.
pub open spec fn skip_spaces(s: Seq<char>, i: int) -> int
    decreases s.len() - i,
{
    if 0 <= i < s.len() && is_space(s[i]) {
        skip_spaces(s, i + 1)
    } else {
        i
    }
}

/// End of `s[lo..j]` once trailing spaces are dropped.
pub open spec fn drop_trailing_spaces(s: Seq<char>, lo: int, j: int) -> int
    decreases j - lo,
{
    if lo < j <= s.len() && is_space(s[j - 1]) {
        drop_trailing_spaces(s, lo, j - 1)
    } else {
        j
    }
}

/// `s` without leading and trailing ASCII whitespace.
pub open spec fn trim(s: Seq<char>) -> Seq<char> {
    let a = skip_spaces(s, 0);
    s.subrange(a, drop_trailing_spaces(s, a, s.len() as int))
}

pub open spec fn crlf() -> Seq<char> {
    seq!['\r', '\n']
}

/// Where a search for `pat` starting at `i` ends: -1, or a position from `i` on.
pub proof fn lemma_find_from_bounds(s: Seq<char>, pat: Seq<char>, i: int)
    ensures
        find_from(s, pat, i) == -1 || (i <= find_from(s, pat, i) && find_from(s, pat, i)
            + pat.len() <= s.len()),
    decreases s.len() + 1 - i,
{
    if !(i < 0 || i + pat.len() > s.len()) && s.subrange(i, i + pat.len()) != pat {
        lemma_find_from_bounds(s, pat, i + 1);
    }
}

pub fn find(s: &Vec<char>, pat: &[char], start: usize) -> (r: Option<usize>)
    requires
        start <= s@.len(),
        pat@.len() > 0,
    ensures
        match r {
            Some(k) => k == find_from(s@, pat@, start as int),
            None => find_from(s@, pat@, start as int) == -1,
        },
{
    let n = s.len();
    let m = pat.len();
    let mut i = start;
    while m <= n - i
        invariant
            start <= i <= n,
            n == s@.len(),
            m == pat@.len(),
            find_from(s@, pat@, start as int) == find_from(s@, pat@, i as int),
        decreases n - i,
    {
        let mut j: usize = 0;
        let mut same = true;
        while j < m
            invariant
                i + m <= n,
                n == s@.len(),
                m == pat@.len(),
                j <= m,
                same == (forall|t: int| 0 <= t < j ==> s@[i + t] == pat@[t]),
            decreases m - j,
        {
            if s[i + j] != pat[j] {
                same = false;
            }
            j += 1;
        }
        if same {
            assert(s@.subrange(i as int, i + m) == pat@);
            return Some(i);
        }
        assert(s@.subrange(i as int, i + m) != pat@) by {
            if s@.subrange(i as int, i + m) == pat@ {
                assert forall|t: int| 0 <= t < m implies s@[i + t] == pat@[t] by {
                    assert(s@.subrange(i as int, i + m)[t] == s@[i + t]);
                }
            }
        }
        i += 1;
    }
    None
}

/// A copy of `s[lo..hi]`.
pub fn copy_range(s: &Vec<char>, lo: usize, hi: usize) -> (r: Vec<char>)
    requires
        lo <= hi <= s@.len(),
    ensures
        r@ == s@.subrange(lo as int, hi as int),
{
    let mut v: Vec<char> = Vec::new();
    let mut i = lo;
    while i < hi
        invariant
            lo <= i <= hi <= s@.len(),
            v@ == s@.subrange(lo as int, i as int),
        decreases hi - i,
    {
        v.push(s[i]);
        i += 1;
    }
    v
}

/// Splits `s` at every occurrence of the non-empty `pat`.
pub fn split_all(s: &Vec<char>, pat: &[char]) -> (r: Vec<Vec<char>>)
    requires
        pat@.len() > 0,
    ensures
        r.deep_view() == split(s@, pat@),
{
    let mut pieces: Vec<Vec<char>> = Vec::new();
    let mut i: usize = 0;
    loop
        invariant
            i <= s@.len(),
            pat@.len() > 0,
            pieces.deep_view() + split_from(s@, pat@, i as int) == split(s@, pat@),
        decreases s@.len() - i,
    {
        proof {
            lemma_find_from_bounds(s@, pat@, i as int);
        }
        match find(s, pat, i) {
            Some(k) => {
                let piece = copy_range(s, i, k);
                assert(piece.deep_view() =~= piece@);
                let ghost p0 = pieces.deep_view();
                proof {
                    assert(split_from(s@, pat@, i as int) == seq![piece@] + split_from(
                        s@,
                        pat@,
                        k + pat@.len(),
                    ));
                    assert(p0.push(piece@) + split_from(s@, pat@, k + pat@.len()) == p0 + (seq![
                        piece@,
                    ] + split_from(s@, pat@, k + pat@.len())));
                }
                pieces.push(piece);
                assert(piece.deep_view() =~= piece@);
                assert(pieces.deep_view() =~= p0.push(piece@));
                assert(k + pat@.len() <= s@.len());
                let n = s.len();
                let m = pat.len();
                assert(k + m <= n);
                i = k + m;
            },
            None => {
                let piece = copy_range(s, i, s.len());
                let ghost p0 = pieces.deep_view();
                assert(split_from(s@, pat@, i as int) == seq![piece@]);
                pieces.push(piece);
                assert(piece.deep_view() =~= piece@);
                assert(pieces.deep_view() =~= p0.push(piece@));
                assert(pieces.deep_view() =~= split(s@, pat@));
                return pieces;
            },
        }
    }
}

} // verus!

verus! {

pub fn is_space_char(c: char) -> (r: bool)
    ensures
        r == is_space(c),
{
    c == ' ' || c == '\t' || c == '\n' || c == '\r' || c == '\x0c'
}

/// Drops leading and trailing ASCII whitespace.
pub fn trim_chars(s: &Vec<char>) -> (r: Vec<char>)
    ensures
        r@ == trim(s@),
{
    let n = s.len();
    let mut a: usize = 0;
    while a < n && is_space_char(s[a])
        invariant
            a <= n == s@.len(),
            skip_spaces(s@, 0) == skip_spaces(s@, a as int),
        decreases n - a,
    {
        a += 1;
    }
    let mut b: usize = n;
    while b > a && is_space_char(s[b - 1])
        invariant
            a <= b <= n == s@.len(),
            drop_trailing_spaces(s@, a as int, n as int) == drop_trailing_spaces(
                s@,
                a as int,
                b as int,
            ),
        decreases b,
    {
        b -= 1;
    }
    copy_range(s, a, b)
}

/// Relies on `String`'s `FromIterator<char>`: the string holds exactly the given characters.
#[verifier::external_body]
pub fn string_from_chars(chars: &Vec<char>) -> (r: String)
    ensures
        r@ == chars@,
{
    chars.iter().collect()
}

pub open spec fn digit_char(d: nat) -> char {
    if d == 0 {
        '0'
    } else if d == 1 {
        '1'
    } else if d == 2 {
        '2'
    } else if d == 3 {
        '3'
    } else if d == 4 {
        '4'
    } else if d == 5 {
        '5'
    } else if d == 6 {
        '6'
    } else if d == 7 {
        '7'
    } else if d == 8 {
        '8'
    } else {
        '9'
    }
}

/// The decimal digits of `n`, most significant first.
pub open spec fn decimal(n: nat) -> Seq<char>
    decreases n,
{
    if n < 10 {
        seq![digit_char(n)]
    } else {
        decimal(n / 10).push(digit_char(n % 10))
    }
}

fn push_digit(v: &mut Vec<char>, d: usize)
    requires
        d < 10,
    ensures
        final(v)@ == old(v)@.push(digit_char(d as nat)),
{
    let c = if d == 0 {
        '0'
    } else if d == 1 {
        '1'
    } else if d == 2 {
        '2'
    } else if d == 3 {
        '3'
    } else if d == 4 {
        '4'
    } else if d == 5 {
        '5'
    } else if d == 6 {
        '6'
    } else if d == 7 {
        '7'
    } else if d == 8 {
        '8'
    } else {
        '9'
    };
    v.push(c);
}

/// Appends the decimal digits of `n` to `v`.
pub fn push_decimal(v: &mut Vec<char>, n: usize)
    ensures
        final(v)@ == old(v)@ + decimal(n as nat),
    decreases n,
{
    if n >= 10 {
        push_decimal(v, n / 10);
    }
    push_digit(v, n % 10);
    assert(v@ =~= old(v)@ + decimal(n as nat));
}

} // verus!

verus! {

/// Compares two character sequences, ignoring ASCII case.
pub fn slice_eq_ignore_case(a: &[char], b: &[char]) -> (r: bool)
    ensures
        r == eq_ignore_case(a@, b@),
{
    let n = a.len();
    if n != b.len() {
        return false;
    }
    let mut i: usize = 0;
    while i < n
        invariant
            n == a@.len() == b@.len(),
            i <= n,
            forall|j: int| 0 <= j < i ==> char_eq_ignore_case(#[trigger] a@[j], b@[j]),
        decreases n - i,
    {
        if !chars_eq_ignore_case(a[i], b[i]) {
            return false;
        }
        i += 1;
    }
    true
}

} // verus!

verus! {

/// A search from `i` finds nothing when `pat` occurs nowhere from `i` on.
pub proof fn lemma_find_from_absent(s: Seq<char>, pat: Seq<char>, i: int)
    requires
        forall|j: int| i <= j && j + pat.len() <= s.len() ==> #[trigger] s.subrange(j, j + pat.len()) != pat,
    ensures
        find_from(s, pat, i) == -1,
    decreases s.len() + 1 - i,
{
    if !(i < 0 || i + pat.len() > s.len()) {
        lemma_find_from_absent(s, pat, i + 1);
    }
}

} // verus!

verus! {

/// Whether `c` occurs nowhere in `s`.
pub open spec fn lacks(s: Seq<char>, c: char) -> bool {
    forall|i: int| 0 <= i < s.len() ==> #[trigger] s[i] != c
}

/// A search that cannot match at `i` moves on to `i + 1`.
proof fn lemma_find_from_step(s: Seq<char>, pat: Seq<char>, i: int, t: int)
    requires
        0 <= i,
        0 <= t < pat.len(),
        i + t < s.len(),
        s[i + t] != pat[t],
    ensures
        find_from(s, pat, i) == find_from(s, pat, i + 1),
{
    if i + pat.len() <= s.len() {
        assert(s.subrange(i, i + pat.len())[t] == s[i + t]);
    }
}

/// Searching `a + b` from inside `b` is searching `b`.
pub proof fn lemma_find_from_shift(a: Seq<char>, b: Seq<char>, pat: Seq<char>, i: int)
    requires
        0 <= i,
    ensures
        find_from(a + b, pat, a.len() + i) == if find_from(b, pat, i) == -1 {
            -1
        } else {
            a.len() + find_from(b, pat, i)
        },
    decreases b.len() + 1 - i,
{
    let s = a + b;
    if !(i + pat.len() > b.len()) {
        assert(s.subrange(a.len() + i, a.len() + i + pat.len()) =~= b.subrange(i, i + pat.len()));
        if b.subrange(i, i + pat.len()) != pat {
            lemma_find_from_shift(a, b, pat, i + 1);
        }
    }
}

/// A prefix without the pattern's first character is skipped over.
pub proof fn lemma_find_from_skip(a: Seq<char>, b: Seq<char>, pat: Seq<char>, i: int)
    requires
        pat.len() > 0,
        lacks(a, pat[0]),
        0 <= i <= a.len(),
    ensures
        find_from(a + b, pat, i) == find_from(a + b, pat, a.len() as int),
    decreases a.len() - i,
{
    if i < a.len() {
        assert((a + b)[i] == a[i]);
        lemma_find_from_step(a + b, pat, i, 0);
        lemma_find_from_skip(a, b, pat, i + 1);
    }
}

/// Splitting `a + b` from inside `b` is splitting `b`.
pub proof fn lemma_split_from_shift(a: Seq<char>, b: Seq<char>, pat: Seq<char>, i: int)
    requires
        pat.len() > 0,
        0 <= i <= b.len(),
    ensures
        split_from(a + b, pat, a.len() + i) == split_from(b, pat, i),
    decreases b.len() + 1 - i,
{
    let s = a + b;
    lemma_find_from_shift(a, b, pat, i);
    lemma_find_from_bounds(b, pat, i);
    let k = find_from(b, pat, i);
    if k < i || k + pat.len() > b.len() {
        assert(s.subrange(a.len() + i, s.len() as int) =~= b.subrange(i, b.len() as int));
    } else {
        assert(s.subrange(a.len() + i, a.len() + k) =~= b.subrange(i, k));
        lemma_split_from_shift(a, b, pat, k + pat.len());
    }
}

/// A piece without the pattern's first character splits into itself.
pub proof fn lemma_split_single(a: Seq<char>, pat: Seq<char>)
    requires
        pat.len() > 0,
        lacks(a, pat[0]),
    ensures
        split(a, pat) == seq![a],
{
    assert forall|j: int| 0 <= j && j + pat.len() <= a.len() implies #[trigger] a.subrange(
        j,
        j + pat.len(),
    ) != pat by {
        assert(a.subrange(j, j + pat.len())[0] == a[j]);
    }
    lemma_find_from_absent(a, pat, 0);
    assert(a.subrange(0, a.len() as int) =~= a);
}

/// `a`, the pattern, then `b` splits into `a` followed by the pieces of `b`.
pub proof fn lemma_split_cons(a: Seq<char>, pat: Seq<char>, b: Seq<char>)
    requires
        pat.len() > 0,
        lacks(a, pat[0]),
    ensures
        split(a + pat + b, pat) == seq![a] + split(b, pat),
{
    let s = a + (pat + b);
    assert(a + pat + b =~= s);
    lemma_find_from_skip(a, pat + b, pat, 0);
    lemma_find_from_shift(a, pat + b, pat, 0);
    assert((pat + b).subrange(0, pat.len() as int) =~= pat);
    assert(find_from(pat + b, pat, 0) == 0);
    assert(s.subrange(0, a.len() as int) =~= a);
    let ap = a + pat;
    assert(s =~= ap + b);
    lemma_split_from_shift(ap, b, pat, 0);
}

/// Lines joined with CRLF.
pub open spec fn join_lines(lines: Seq<Seq<char>>) -> Seq<char>
    decreases lines.len(),
{
    if lines.len() <= 1 {
        if lines.len() == 1 {
            lines[0]
        } else {
            Seq::empty()
        }
    } else {
        lines[0] + crlf() + join_lines(lines.drop_first())
    }
}

pub proof fn lemma_join_push(lines: Seq<Seq<char>>, x: Seq<char>)
    requires
        lines.len() >= 1,
    ensures
        join_lines(lines.push(x)) == join_lines(lines) + crlf() + x,
    decreases lines.len(),
{
    if lines.len() == 1 {
        assert(lines.push(x).drop_first() =~= seq![x]);
        assert(join_lines(seq![x]) == x);
        assert(lines.push(x)[0] == lines[0]);
        assert(join_lines(lines) == lines[0]);
    } else {
        assert(lines.push(x).drop_first() =~= lines.drop_first().push(x));
        lemma_join_push(lines.drop_first(), x);
        assert(join_lines(lines.push(x)) =~= join_lines(lines) + crlf() + x);
    }
}

} // verus!

verus! {

/// Whether `s` holds no line break `\r\n`.
pub open spec fn no_crlf(s: Seq<char>) -> bool {
    forall|i: int| 0 <= i && i + 1 < s.len() ==> !(#[trigger] s[i] == '\r' && s[i + 1] == '\n')
}

pub proof fn lemma_no_crlf_concat(a: Seq<char>, b: Seq<char>)
    requires
        no_crlf(a),
        no_crlf(b),
        a.len() == 0 || b.len() == 0 || !(a.last() == '\r' && b[0] == '\n'),
    ensures
        no_crlf(a + b),
{
    let s = a + b;
    assert forall|i: int| 0 <= i && i + 1 < s.len() implies !(#[trigger] s[i] == '\r' && s[i + 1] == '\n') by {
        if i + 1 < a.len() {
            assert(s[i] == a[i] && s[i + 1] == a[i + 1]);
        } else if i >= a.len() {
            assert(s[i] == b[i - a.len()] && s[i + 1] == b[i + 1 - a.len()]);
        } else {
            assert(s[i] == a.last() && s[i + 1] == b[0]);
        }
    }
}

pub proof fn lemma_lacks_no_crlf(a: Seq<char>)
    requires
        lacks(a, '\r'),
    ensures
        no_crlf(a),
{
    assert forall|i: int| 0 <= i && i + 1 < a.len() implies !(#[trigger] a[i] == '\r' && a[i + 1] == '\n') by {
        assert(a[i] != '\r');
    }
}

/// A search moves past positions where the pattern does not start.
proof fn lemma_find_from_skip_any(s: Seq<char>, pat: Seq<char>, i: int, n: int)
    requires
        0 <= i <= n,
        forall|p: int| i <= p < n ==> p + pat.len() > s.len() || #[trigger] s.subrange(p, p + pat.len()) != pat,
    ensures
        find_from(s, pat, i) == find_from(s, pat, n),
    decreases n - i,
{
    if i < n {
        lemma_find_from_skip_any(s, pat, i + 1, n);
    }
}

/// No line break starts inside `a` when `a` has none and a carriage return follows it.
proof fn lemma_crlf_not_in(a: Seq<char>, x: Seq<char>, pat: Seq<char>)
    requires
        no_crlf(a),
        x.len() > 0,
        x[0] == '\r',
        pat.len() >= 2,
        pat[0] == '\r',
        pat[1] == '\n',
    ensures
        forall|p: int| 0 <= p < a.len() ==> p + pat.len() > (a + x).len() || #[trigger] (a + x).subrange(p, p + pat.len()) != pat,
{
    let s = a + x;
    assert forall|p: int| 0 <= p < a.len() implies p + pat.len() > s.len() || #[trigger] s.subrange(p, p + pat.len()) != pat by {
        if p + pat.len() <= s.len() {
            let w = s.subrange(p, p + pat.len());
            assert(w[0] == s[p] && w[1] == s[p + 1]);
            if p + 1 < a.len() {
                assert(s[p] == a[p] && s[p + 1] == a[p + 1]);
            } else {
                assert(s[p + 1] == x[0]);
            }
        }
    }
}

pub proof fn lemma_split_cons_crlf(a: Seq<char>, b: Seq<char>)
    requires
        no_crlf(a),
    ensures
        split(a + crlf() + b, crlf()) == seq![a] + split(b, crlf()),
{
    let x = crlf() + b;
    let s = a + x;
    assert(a + crlf() + b =~= s);
    lemma_crlf_not_in(a, x, crlf());
    lemma_find_from_skip_any(s, crlf(), 0, a.len() as int);
    lemma_find_from_shift(a, x, crlf(), 0);
    assert(x.subrange(0, 2) =~= crlf());
    assert(find_from(x, crlf(), 0) == 0);
    assert(s.subrange(0, a.len() as int) =~= a);
    let ap = a + crlf();
    assert(s =~= ap + b);
    lemma_split_from_shift(ap, b, crlf(), 0);
}

pub proof fn lemma_split_single_crlf(a: Seq<char>)
    requires
        no_crlf(a),
    ensures
        split(a, crlf()) == seq![a],
{
    assert forall|j: int| 0 <= j && j + 2 <= a.len() implies #[trigger] a.subrange(j, j + 2) != crlf() by {
        assert(a.subrange(j, j + 2)[0] == a[j] && a.subrange(j, j + 2)[1] == a[j + 1]);
    }
    lemma_find_from_absent(a, crlf(), 0);
    assert(a.subrange(0, a.len() as int) =~= a);
}

/// Lines without line breaks split back out of their CRLF join.
pub proof fn lemma_split_join_crlf(lines: Seq<Seq<char>>)
    requires
        lines.len() >= 1,
        forall|i: int| 0 <= i < lines.len() ==> no_crlf(#[trigger] lines[i]),
    ensures
        split(join_lines(lines), crlf()) == lines,
    decreases lines.len(),
{
    if lines.len() == 1 {
        lemma_split_single_crlf(lines[0]);
        assert(seq![lines[0]] =~= lines);
    } else {
        let rest = lines.drop_first();
        assert forall|i: int| 0 <= i < rest.len() implies no_crlf(#[trigger] rest[i]) by {
            assert(rest[i] == lines[i + 1]);
        }
        lemma_split_join_crlf(rest);
        lemma_split_cons_crlf(lines[0], join_lines(rest));
        assert(seq![lines[0]] + rest =~= lines);
    }
}

proof fn lemma_join_front(lines: Seq<Seq<char>>, tail: Seq<char>)
    requires
        lines.len() >= 1,
        lines[0].len() >= 1,
        tail.len() >= 1,
        tail[0] == '\r',
    ensures
        (join_lines(lines) + tail)[0] == lines[0][0],
        lines[0].len() >= 2 ==> (join_lines(lines) + tail)[1] == lines[0][1],
        lines[0].len() == 1 ==> (join_lines(lines) + tail)[1] == '\r',
{
    if lines.len() > 1 {
        let j = lines[0] + crlf() + join_lines(lines.drop_first());
        assert(join_lines(lines) == j);
        assert((j + tail)[0] == lines[0][0]);
        if lines[0].len() >= 2 {
            assert((j + tail)[1] == lines[0][1]);
        } else {
            assert((j + tail)[1] == crlf()[0]);
        }
    } else {
        assert(join_lines(lines) == lines[0]);
        if lines[0].len() == 1 {
            assert((lines[0] + tail)[1] == tail[0]);
        }
    }
}

/// In the join of non-empty lines without line breaks followed by a blank line, the
/// first `\r\n\r\n` is the one right after the last line.
pub proof fn lemma_find_blank_line_crlf(lines: Seq<Seq<char>>, pat: Seq<char>, rest: Seq<char>)
    requires
        lines.len() >= 1,
        pat == seq!['\r', '\n', '\r', '\n'],
        forall|i: int| 0 <= i < lines.len() ==> no_crlf(#[trigger] lines[i]),
        forall|i: int| 0 <= i < lines.len() ==> (#[trigger] lines[i]).len() > 0,
    ensures
        find_from(join_lines(lines) + pat + rest, pat, 0) == join_lines(lines).len(),
    decreases lines.len(),
{
    let l = lines[0];
    if lines.len() == 1 {
        let x = pat + rest;
        assert(join_lines(lines) + pat + rest =~= l + x);
        lemma_crlf_not_in(l, x, pat);
        lemma_find_from_skip_any(l + x, pat, 0, l.len() as int);
        lemma_find_from_shift(l, x, pat, 0);
        assert(x.subrange(0, 4) =~= pat);
    } else {
        let tail = lines.drop_first();
        assert forall|i: int| 0 <= i < tail.len() implies no_crlf(#[trigger] tail[i]) && tail[i].len() > 0 by {
            assert(tail[i] == lines[i + 1]);
        }
        lemma_find_blank_line_crlf(tail, pat, rest);
        let y = join_lines(tail) + pat + rest;
        let x = crlf() + y;
        assert(join_lines(lines) + pat + rest =~= l + x);
        lemma_crlf_not_in(l, x, pat);
        lemma_find_from_skip_any(l + x, pat, 0, l.len() as int);
        lemma_find_from_shift(l, x, pat, 0);
        assert(y =~= join_lines(tail) + (pat + rest));
        lemma_join_front(tail, pat + rest);
        assert(tail[0].len() >= 2 ==> !(tail[0][0] == '\r' && tail[0][1] == '\n'));
        assert(x[2] == y[0] && x[3] == y[1]);
        if y[0] == '\r' {
            lemma_find_from_step(x, pat, 0, 3);
        } else {
            lemma_find_from_step(x, pat, 0, 2);
        }
        assert(x[1] == '\n');
        lemma_find_from_step(x, pat, 1, 0);
        lemma_find_from_shift(crlf(), y, pat, 0);
    }
}

} // verus!
