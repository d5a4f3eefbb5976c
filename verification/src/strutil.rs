//! Character-sequence utilities shared by the whole library: lexicographic
//! order on strings, decimal rendering of indices, whitespace trimming and
//! token scanning for the command parser.

use vstd::prelude::*;

verus! {

/// Strict lexicographic order on character sequences, by code point.
pub open spec fn lex_lt(a: Seq<char>, b: Seq<char>) -> bool
    decreases a.len(),
{
    if b.len() == 0 {
        false
    } else if a.len() == 0 {
        true
    } else if (a[0] as int) < (b[0] as int) {
        true
    } else if a[0] == b[0] {
        lex_lt(a.drop_first(), b.drop_first())
    } else {
        false
    }
}

/// Reflexive closure of [`lex_lt`].
pub open spec fn lex_le(a: Seq<char>, b: Seq<char>) -> bool {
    lex_lt(a, b) || a == b
}

pub proof fn lemma_lex_lt_irreflexive(a: Seq<char>)
    ensures
        !lex_lt(a, a),
    decreases a.len(),
{
    if a.len() > 0 {
        lemma_lex_lt_irreflexive(a.drop_first());
    }
}

/// Exactly one of `a < b`, `b < a`, `a == b` holds.
pub proof fn lemma_lex_lt_connected(a: Seq<char>, b: Seq<char>)
    ensures
        lex_lt(a, b) || lex_lt(b, a) || a == b,
    decreases a.len(),
{
    if a.len() == 0 || b.len() == 0 {
        if a.len() == 0 && b.len() == 0 {
            assert(a =~= b);
        }
    } else {
        if a[0] == b[0] {
            lemma_lex_lt_connected(a.drop_first(), b.drop_first());
            if !lex_lt(a, b) && !lex_lt(b, a) {
                assert(a.drop_first() == b.drop_first());
                assert(a.len() == b.len());
                assert forall|i: int| 0 <= i < a.len() implies a[i] == b[i] by {
                    if i > 0 {
                        assert(a[i] == a.drop_first()[i - 1]);
                        assert(b[i] == b.drop_first()[i - 1]);
                    }
                }
                assert(a =~= b);
            }
        }
    }
}

pub proof fn lemma_lex_lt_transitive(a: Seq<char>, b: Seq<char>, c: Seq<char>)
    requires
        lex_lt(a, b),
        lex_lt(b, c),
    ensures
        lex_lt(a, c),
    decreases a.len(),
{
    if a.len() == 0 {
        assert(b.len() > 0 && c.len() > 0);
    } else {
        assert(b.len() > 0 && c.len() > 0);
        if a[0] == b[0] && b[0] == c[0] {
            lemma_lex_lt_transitive(a.drop_first(), b.drop_first(), c.drop_first());
        }
    }
}

pub proof fn lemma_lex_lt_asymmetric(a: Seq<char>, b: Seq<char>)
    requires
        lex_lt(a, b),
    ensures
        !lex_lt(b, a),
{
    if lex_lt(b, a) {
        lemma_lex_lt_transitive(a, b, a);
        lemma_lex_lt_irreflexive(a);
    }
}

/// Dropping a shared first character does not change the comparison.
proof fn lemma_lex_lt_step(a: Seq<char>, b: Seq<char>, i: int)
    requires
        0 <= i < a.len(),
        i < b.len(),
        a[i] == b[i],
    ensures
        lex_lt(a.skip(i), b.skip(i)) == lex_lt(a.skip(i + 1), b.skip(i + 1)),
{
    let x = a.skip(i);
    let y = b.skip(i);
    assert(x.len() > 0 && y.len() > 0);
    assert(x[0] == y[0]);
    assert(x.drop_first() =~= a.skip(i + 1));
    assert(y.drop_first() =~= b.skip(i + 1));
}

/// Decides [`lex_lt`] on string slices.
pub fn str_lt(a: &str, b: &str) -> (r: bool)
    ensures
        r == lex_lt(a@, b@),
{
    let alen = a.unicode_len();
    let blen = b.unicode_len();
    let mut i: usize = 0;
    proof {
        assert(a@.skip(0) =~= a@);
        assert(b@.skip(0) =~= b@);
    }
    loop
        invariant
            i <= alen,
            i <= blen,
            alen == a@.len(),
            blen == b@.len(),
            lex_lt(a@, b@) == lex_lt(a@.skip(i as int), b@.skip(i as int)),
        decreases alen - i,
    {
        if i >= blen {
            proof {
                assert(b@.skip(i as int).len() == 0);
            }
            return false;
        }
        if i >= alen {
            proof {
                assert(a@.skip(i as int).len() == 0);
                assert(b@.skip(i as int).len() > 0);
            }
            return true;
        }
        let ca = a.get_char(i);
        let cb = b.get_char(i);
        if ca == cb {
            proof {
                lemma_lex_lt_step(a@, b@, i as int);
            }
            i = i + 1;
        } else if (ca as u32) < (cb as u32) {
            proof {
                assert(a@.skip(i as int)[0] == ca);
                assert(b@.skip(i as int)[0] == cb);
            }
            return true;
        } else {
            proof {
                assert(a@.skip(i as int)[0] == ca);
                assert(b@.skip(i as int)[0] == cb);
                assert(!lex_lt(a@.skip(i as int), b@.skip(i as int)));
            }
            return false;
        }
    }
}

/// Decides view equality of two string slices.
pub fn str_eq(a: &str, b: &str) -> (r: bool)
    ensures
        r == (a@ == b@),
{
    let lt = str_lt(a, b);
    let gt = str_lt(b, a);
    proof {
        lemma_lex_lt_connected(a@, b@);
        if a@ == b@ {
            lemma_lex_lt_irreflexive(a@);
        }
    }
    !lt && !gt
}

/// The decimal digit character for `d`.
pub open spec fn digit_char(d: int) -> char {
    if d == 0 { '0' }
    else if d == 1 { '1' }
    else if d == 2 { '2' }
    else if d == 3 { '3' }
    else if d == 4 { '4' }
    else if d == 5 { '5' }
    else if d == 6 { '6' }
    else if d == 7 { '7' }
    else if d == 8 { '8' }
    else { '9' }
}

/// Decimal rendering of a nonnegative integer, most significant digit first.
pub open spec fn spec_digits(n: int) -> Seq<char>
    recommends
        n >= 0,
    decreases n,
{
    if n < 10 {
        seq![digit_char(n)]
    } else {
        spec_digits(n / 10).push(digit_char(n % 10))
    }
}

/// The one-character string for a single decimal digit.
fn digit_str(d: usize) -> (r: &'static str)
    requires
        d < 10,
    ensures
        r@ =~= seq![digit_char(d as int)],
{
    proof {
        reveal_strlit("0");
        reveal_strlit("1");
        reveal_strlit("2");
        reveal_strlit("3");
        reveal_strlit("4");
        reveal_strlit("5");
        reveal_strlit("6");
        reveal_strlit("7");
        reveal_strlit("8");
        reveal_strlit("9");
    }
    if d == 0 { "0" }
    else if d == 1 { "1" }
    else if d == 2 { "2" }
    else if d == 3 { "3" }
    else if d == 4 { "4" }
    else if d == 5 { "5" }
    else if d == 6 { "6" }
    else if d == 7 { "7" }
    else if d == 8 { "8" }
    else { "9" }
}

/// Renders `n` in decimal.
pub fn usize_to_string(n: usize) -> (r: String)
    ensures
        r@ == spec_digits(n as int),
    decreases n,
{
    let d: usize = n % 10;
    if n < 10 {
        let mut s = String::new();
        s.append(digit_str(d));
        proof {
            assert(s@ =~= spec_digits(n as int));
        }
        s
    } else {
        let mut s = usize_to_string(n / 10);
        s.append(digit_str(d));
        proof {
            assert(s@ =~= spec_digits(n as int));
        }
        s
    }
}

/// The whitespace characters the command surface recognises.
pub open spec fn is_ws(c: char) -> bool {
    c == ' ' || c == '\t' || c == '\n' || c == '\r'
}

/// Executable mirror of [`is_ws`].
pub fn is_ws_char(c: char) -> (r: bool)
    ensures
        r == is_ws(c),
{
    c == ' ' || c == '\t' || c == '\n' || c == '\r'
}

/// Index of the first non-whitespace character at or after `i`.
pub open spec fn skip_ws_idx(s: Seq<char>, i: int) -> int
    recommends
        0 <= i <= s.len(),
    decreases s.len() - i,
{
    if i < s.len() && is_ws(s[i]) {
        skip_ws_idx(s, i + 1)
    } else {
        i
    }
}

/// Index just past the token that starts at `i`.
pub open spec fn token_end_idx(s: Seq<char>, i: int) -> int
    recommends
        0 <= i <= s.len(),
    decreases s.len() - i,
{
    if i < s.len() && !is_ws(s[i]) {
        token_end_idx(s, i + 1)
    } else {
        i
    }
}

pub proof fn lemma_skip_ws_idx_bounds(s: Seq<char>, i: int)
    requires
        0 <= i <= s.len(),
    ensures
        i <= skip_ws_idx(s, i) <= s.len(),
    decreases s.len() - i,
{
    if i < s.len() && is_ws(s[i]) {
        lemma_skip_ws_idx_bounds(s, i + 1);
    }
}

pub proof fn lemma_token_end_idx_bounds(s: Seq<char>, i: int)
    requires
        0 <= i <= s.len(),
    ensures
        i <= token_end_idx(s, i) <= s.len(),
    decreases s.len() - i,
{
    if i < s.len() && !is_ws(s[i]) {
        lemma_token_end_idx_bounds(s, i + 1);
    }
}

/// [`skip_ws_idx`] lands on the end or on a non-whitespace character.
pub proof fn lemma_skip_ws_idx_stops(s: Seq<char>, i: int)
    requires
        0 <= i <= s.len(),
    ensures
        skip_ws_idx(s, i) == s.len() || !is_ws(s[skip_ws_idx(s, i)]),
    decreases s.len() - i,
{
    if i < s.len() && is_ws(s[i]) {
        lemma_skip_ws_idx_stops(s, i + 1);
    }
}

/// Finds the first non-whitespace position at or after `from`.
pub fn skip_ws(s: &str, from: usize) -> (r: usize)
    requires
        from <= s@.len(),
    ensures
        r == skip_ws_idx(s@, from as int),
        from <= r <= s@.len(),
{
    let len = s.unicode_len();
    let mut i: usize = from;
    loop
        invariant
            from <= i <= len,
            len == s@.len(),
            skip_ws_idx(s@, from as int) == skip_ws_idx(s@, i as int),
        decreases len - i,
    {
        if i >= len {
            return i;
        }
        let c = s.get_char(i);
        if is_ws_char(c) {
            i = i + 1;
        } else {
            return i;
        }
    }
}

/// Finds the end of the token that starts at `from`.
pub fn token_end(s: &str, from: usize) -> (r: usize)
    requires
        from <= s@.len(),
    ensures
        r == token_end_idx(s@, from as int),
        from <= r <= s@.len(),
{
    let len = s.unicode_len();
    let mut i: usize = from;
    loop
        invariant
            from <= i <= len,
            len == s@.len(),
            token_end_idx(s@, from as int) == token_end_idx(s@, i as int),
        decreases len - i,
    {
        if i >= len {
            return i;
        }
        let c = s.get_char(i);
        if !is_ws_char(c) {
            i = i + 1;
        } else {
            return i;
        }
    }
}

/// `s` with leading whitespace removed.
pub open spec fn trim_front(s: Seq<char>) -> Seq<char>
    decreases s.len(),
{
    if s.len() > 0 && is_ws(s[0]) {
        trim_front(s.drop_first())
    } else {
        s
    }
}

/// `s` with trailing whitespace removed.
pub open spec fn trim_back(s: Seq<char>) -> Seq<char>
    decreases s.len(),
{
    if s.len() > 0 && is_ws(s.last()) {
        trim_back(s.drop_last())
    } else {
        s
    }
}

/// `s` with whitespace removed on both ends.
pub open spec fn trimmed(s: Seq<char>) -> Seq<char> {
    trim_back(trim_front(s))
}

pub proof fn lemma_trim_front_skip(s: Seq<char>, i: int)
    requires
        0 <= i <= s.len(),
        forall|j: int| 0 <= j < i ==> is_ws(s[j]),
    ensures
        trim_front(s) == trim_front(s.skip(i)),
    decreases i,
{
    if i > 0 {
        assert(s.skip(0) =~= s);
        lemma_trim_front_skip(s, i - 1);
        let t = s.skip(i - 1);
        assert(t.len() > 0 && is_ws(t[0]));
        assert(t.drop_first() =~= s.skip(i));
    } else {
        assert(s.skip(0) =~= s);
    }
}

pub proof fn lemma_trim_back_take(s: Seq<char>, i: int)
    requires
        0 <= i <= s.len(),
        forall|j: int| i <= j < s.len() ==> is_ws(s[j]),
    ensures
        trim_back(s) == trim_back(s.take(i)),
    decreases s.len() - i,
{
    if i < s.len() {
        assert(s.take(s.len() as int) =~= s);
        lemma_trim_back_take(s, i + 1);
        let t = s.take(i + 1);
        assert(t.len() > 0 && is_ws(t.last()));
        assert(t.drop_last() =~= s.take(i));
    } else {
        assert(s.take(i) =~= s);
    }
}

/// Index of the end of `s.take(i)` once trailing whitespace is dropped.
pub open spec fn rstrip_idx(s: Seq<char>, i: int) -> int
    recommends
        0 <= i <= s.len(),
    decreases i,
{
    if i > 0 && is_ws(s[i - 1]) {
        rstrip_idx(s, i - 1)
    } else {
        i
    }
}

pub proof fn lemma_rstrip_idx_bounds(s: Seq<char>, i: int)
    requires
        0 <= i <= s.len(),
    ensures
        0 <= rstrip_idx(s, i) <= i,
    decreases i,
{
    if i > 0 && is_ws(s[i - 1]) {
        lemma_rstrip_idx_bounds(s, i - 1);
    }
}

/// [`rstrip_idx`] lands on the start or just past a non-whitespace character.
pub proof fn lemma_rstrip_idx_stops(s: Seq<char>, i: int)
    requires
        0 <= i <= s.len(),
    ensures
        rstrip_idx(s, i) == 0 || !is_ws(s[rstrip_idx(s, i) - 1]),
    decreases i,
{
    if i > 0 && is_ws(s[i - 1]) {
        lemma_rstrip_idx_stops(s, i - 1);
    }
}

proof fn lemma_rstrip_all(s: Seq<char>, i: int, j: int)
    requires
        0 <= i <= s.len(),
        rstrip_idx(s, i) <= j < i,
    ensures
        is_ws(s[j]),
    decreases i,
{
    lemma_rstrip_idx_bounds(s, i);
    if i > 0 && is_ws(s[i - 1]) {
        if j < i - 1 {
            lemma_rstrip_all(s, i - 1, j);
        }
    }
}

/// Scans backwards from `from` past trailing whitespace.
pub fn rstrip(s: &str, from: usize) -> (r: usize)
    requires
        from <= s@.len(),
    ensures
        r == rstrip_idx(s@, from as int),
        r <= from,
{
    let mut i: usize = from;
    proof {
        lemma_rstrip_idx_bounds(s@, from as int);
    }
    loop
        invariant
            i <= from <= s@.len(),
            rstrip_idx(s@, from as int) == rstrip_idx(s@, i as int),
        decreases i,
    {
        if i == 0 {
            return 0;
        }
        let c = s.get_char(i - 1);
        if is_ws_char(c) {
            i = i - 1;
        } else {
            return i;
        }
    }
}

/// Removes leading and trailing whitespace.
pub fn trim_str(s: &str) -> (r: String)
    ensures
        r@ == trimmed(s@),
{
    let len = s.unicode_len();
    let lo = skip_ws(s, 0);
    let hi = rstrip(s, len);
    proof {
        assert forall|j: int| 0 <= j < lo implies is_ws(s@[j]) by {
            lemma_skip_ws_all(s@, 0, j);
        }
        lemma_trim_front_skip(s@, lo as int);
        lemma_skip_ws_idx_stops(s@, 0);
        assert(trim_front(s@) == s@.skip(lo as int));
        lemma_rstrip_idx_bounds(s@, len as int);
        lemma_rstrip_idx_stops(s@, len as int);
        assert forall|j: int| hi <= j < len implies is_ws(s@[j]) by {
            lemma_rstrip_all(s@, len as int, j);
        }
    }
    if hi <= lo {
        proof {
            // only an all-whitespace input scans past itself in both directions
            if lo < s@.len() {
                assert(!is_ws(s@[lo as int]));
                assert(hi <= lo < len);
                assert(is_ws(s@[lo as int]));
            }
            assert(lo == s@.len());
            assert(trim_front(s@) =~= Seq::<char>::empty());
            assert(trimmed(s@) =~= Seq::<char>::empty());
        }
        let r = String::new();
        proof {
            assert(r@ =~= trimmed(s@));
        }
        return r;
    }
    let sub = s.substring_char(lo, hi);
    proof {
        let t = s@.skip(lo as int);
        assert(trim_front(s@) == t);
        assert forall|j: int| hi - lo <= j < t.len() implies is_ws(t[j]) by {
            assert(t[j] == s@[j + lo]);
        }
        lemma_trim_back_take(t, hi - lo);
        let u = t.take(hi - lo);
        assert(u.len() > 0);
        assert(u.last() == s@[hi - 1]);
        assert(!is_ws(u.last()));
        assert(trim_back(u) == u);
        assert(u =~= s@.subrange(lo as int, hi as int));
    }
    String::from_str(sub)
}

pub proof fn lemma_skip_ws_all(s: Seq<char>, i: int, j: int)
    requires
        0 <= i <= s.len(),
        i <= j < skip_ws_idx(s, i),
    ensures
        is_ws(s[j]),
    decreases s.len() - i,
{
    lemma_skip_ws_idx_bounds(s, i);
    if i < s.len() && is_ws(s[i]) {
        if j > i {
            lemma_skip_ws_all(s, i + 1, j);
        }
    }
}

/// Case-insensitive comparison for ASCII letters, elsewhere exact.
pub open spec fn char_eqi(a: char, b: char) -> bool {
    a == b
        || (is_ascii_upper(a) && (a as int) + 32 == b as int)
        || (is_ascii_upper(b) && (b as int) + 32 == a as int)
}

pub open spec fn is_ascii_upper(c: char) -> bool {
    'A' as int <= c as int <= 'Z' as int
}

/// ASCII-case-insensitive equality of character sequences.
pub open spec fn seq_eqi(a: Seq<char>, b: Seq<char>) -> bool {
    a.len() == b.len() && forall|i: int| 0 <= i < a.len() ==> char_eqi(a[i], b[i])
}

/// Decides [`seq_eqi`] on string slices.
pub fn str_eqi(a: &str, b: &str) -> (r: bool)
    ensures
        r == seq_eqi(a@, b@),
{
    let alen = a.unicode_len();
    let blen = b.unicode_len();
    if alen != blen {
        return false;
    }
    let mut i: usize = 0;
    loop
        invariant
            i <= alen,
            alen == a@.len(),
            blen == b@.len(),
            alen == blen,
            forall|j: int| 0 <= j < i ==> char_eqi(a@[j], b@[j]),
        decreases alen - i,
    {
        if i >= alen {
            return true;
        }
        let ca = a.get_char(i);
        let cb = b.get_char(i);
        let ua = ca as u32;
        let ub = cb as u32;
        let upper_a = 65u32 <= ua && ua <= 90u32;
        let upper_b = 65u32 <= ub && ub <= 90u32;
        let eq_here = ca == cb || (upper_a && ua + 32 == ub) || (upper_b && ub + 32 == ua);
        proof {
            assert(('A' as int) == 65 && ('Z' as int) == 90);
        }
        if !eq_here {
            return false;
        }
        i = i + 1;
    }
}

/// True when `p` is a prefix of `s`.
pub open spec fn is_prefix(p: Seq<char>, s: Seq<char>) -> bool {
    p.len() <= s.len() && s.take(p.len() as int) == p
}

/// Decides [`is_prefix`] on string slices.
pub fn str_has_prefix(s: &str, p: &str) -> (r: bool)
    ensures
        r == is_prefix(p@, s@),
{
    let plen = p.unicode_len();
    let slen = s.unicode_len();
    if plen > slen {
        return false;
    }
    let head = s.substring_char(0, plen);
    proof {
        assert(head@ =~= s@.take(plen as int));
    }
    str_eq(head, p)
}

} // verus!
