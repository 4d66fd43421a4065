//! Character-level text operations with their mathematical definitions.
//!
//! Every operation works on the characters of a string (its view, a
//! `Seq<char>`), and each has a spec function that says what it computes.
use vstd::prelude::*;
use vstd::string::*;

verus! {

// ---------------------------------------------------------------------------
// Definitions
// ---------------------------------------------------------------------------

/// Unicode `White_Space`: the characters for which `char::is_whitespace` holds.
pub open spec fn spec_is_whitespace(c: char) -> bool {
    let u = c as u32;
    ||| 0x09 <= u <= 0x0d
    ||| u == 0x20
    ||| u == 0x85
    ||| u == 0xa0
    ||| u == 0x1680
    ||| 0x2000 <= u <= 0x200a
    ||| u == 0x2028
    ||| u == 0x2029
    ||| u == 0x202f
    ||| u == 0x205f
    ||| u == 0x3000
}

/// `s` with its leading whitespace removed.
pub open spec fn trim_start(s: Seq<char>) -> Seq<char>
    decreases s.len(),
{
    if s.len() > 0 && spec_is_whitespace(s[0]) {
        trim_start(s.drop_first())
    } else {
        s
    }
}

/// `s` with its trailing whitespace removed.
pub open spec fn trim_end(s: Seq<char>) -> Seq<char>
    decreases s.len(),
{
    if s.len() > 0 && spec_is_whitespace(s.last()) {
        trim_end(s.drop_last())
    } else {
        s
    }
}

/// `s` with whitespace removed at both ends (what `str::trim` returns).
pub open spec fn trim(s: Seq<char>) -> Seq<char> {
    trim_end(trim_start(s))
}

/// `s` with every trailing `c` removed (what `str::trim_end_matches(c)` returns).
pub open spec fn trim_end_char(s: Seq<char>, c: char) -> Seq<char>
    decreases s.len(),
{
    if s.len() > 0 && s.last() == c {
        trim_end_char(s.drop_last(), c)
    } else {
        s
    }
}

/// `p` is a prefix of `s`.
pub open spec fn starts_with(s: Seq<char>, p: Seq<char>) -> bool {
    p.len() <= s.len() && s.take(p.len() as int) == p
}

/// What `str::strip_prefix` returns: the rest of `s` after `p`, if `s` starts with `p`.
pub open spec fn strip_prefix(s: Seq<char>, p: Seq<char>) -> Option<Seq<char>> {
    if starts_with(s, p) {
        Some(s.skip(p.len() as int))
    } else {
        None
    }
}

/// `p` occurs in `s` at position `i`.
pub open spec fn occurs_at(s: Seq<char>, p: Seq<char>, i: int) -> bool {
    0 <= i && i + p.len() <= s.len() && s.subrange(i, i + p.len()) == p
}

/// `p` occurs somewhere in `s` (what `str::contains` decides).
pub open spec fn contains(s: Seq<char>, p: Seq<char>) -> bool {
    exists|i: int| #[trigger] occurs_at(s, p, i)
}

/// Every non-overlapping occurrence of `p` in `s`, found left to right,
/// replaced by `r` (what `str::replace` returns, for a non-empty `p`).
pub open spec fn replace_all(s: Seq<char>, p: Seq<char>, r: Seq<char>) -> Seq<char>
    decreases s.len(),
{
    if p.len() == 0 || s.len() < p.len() {
        s
    } else if s.take(p.len() as int) == p {
        r + replace_all(s.skip(p.len() as int), p, r)
    } else {
        seq![s[0]] + replace_all(s.drop_first(), p, r)
    }
}

/// Strict lexicographic order on character sequences, characters compared by
/// code point. For strings this is the order of `String`'s `Ord`, since UTF-8
/// encoding preserves the order of code points.
pub open spec fn lex_lt(a: Seq<char>, b: Seq<char>) -> bool
    decreases a.len(),
{
    if a.len() == 0 {
        b.len() > 0
    } else if b.len() == 0 {
        false
    } else if a[0] != b[0] {
        (a[0] as int) < (b[0] as int)
    } else {
        lex_lt(a.drop_first(), b.drop_first())
    }
}

/// The character is an ASCII decimal digit.
pub open spec fn is_digit(c: char) -> bool {
    '0' <= c && c <= '9'
}

/// All characters of `d` are ASCII decimal digits.
pub open spec fn all_digits(d: Seq<char>) -> bool {
    forall|i: int| 0 <= i < d.len() ==> is_digit(#[trigger] d[i])
}

/// The number that the decimal digits `d` write.
pub open spec fn digits_value(d: Seq<char>) -> int
    decreases d.len(),
{
    if d.len() == 0 {
        0
    } else {
        digits_value(d.drop_last()) * 10 + (d.last() as int - '0' as int)
    }
}

/// What `str::parse::<u32>` gives, as an `Option`: an optional `+`, then at
/// least one decimal digit and nothing else, of a value that fits in a `u32`.
pub open spec fn parse_u32(s: Seq<char>) -> Option<u32> {
    let d = if s.len() > 0 && s[0] == '+' {
        s.drop_first()
    } else {
        s
    };
    if d.len() > 0 && all_digits(d) && digits_value(d) <= u32::MAX {
        Some(digits_value(d) as u32)
    } else {
        None
    }
}

/// The first whitespace-separated word of `s`, if any (what
/// `str::split_whitespace().next()` gives).
pub open spec fn first_word(s: Seq<char>) -> Option<Seq<char>> {
    let t = trim_start(s);
    if t.len() == 0 {
        None
    } else {
        Some(word_prefix(t))
    }
}

/// The longest prefix of `s` without whitespace.
pub open spec fn word_prefix(s: Seq<char>) -> Seq<char>
    decreases s.len(),
{
    if s.len() == 0 || spec_is_whitespace(s[0]) {
        seq![]
    } else {
        seq![s[0]] + word_prefix(s.drop_first())
    }
}

/// The pieces of `s` between newline characters (what `str::split('\n')`
/// gives): one more piece than there are newlines.
pub open spec fn split_lines(s: Seq<char>) -> Seq<Seq<char>>
    decreases s.len(),
{
    if s.len() == 0 {
        seq![seq![]]
    } else if s.last() == '\n' {
        split_lines(s.drop_last()).push(seq![])
    } else {
        let r = split_lines(s.drop_last());
        r.update(r.len() - 1, r.last().push(s.last()))
    }
}

/// The text of an optional string.
pub open spec fn opt_text(o: Option<String>) -> Option<Seq<char>> {
    match o {
        Some(s) => Some(s@),
        None => None,
    }
}

/// The decimal digit for `d`.
pub open spec fn digit_char(d: int) -> char {
    "0123456789"@[d]
}

/// The decimal numeral of `n`, without leading zeros.
pub open spec fn nat_decimal(n: nat) -> Seq<char>
    decreases n,
{
    if n < 10 {
        seq![digit_char(n as int)]
    } else {
        nat_decimal(n / 10).push(digit_char((n % 10) as int))
    }
}

/// The decimal numeral of `n`, with a minus sign when it is negative (what
/// `Display` and `Debug` print for an integer).
pub open spec fn int_decimal(n: int) -> Seq<char> {
    if n < 0 {
        seq!['-'] + nat_decimal((-n) as nat)
    } else {
        nat_decimal(n as nat)
    }
}

/// What `Debug` prints for an optional `i32`.
pub open spec fn debug_opt_i32(o: Option<i32>) -> Seq<char> {
    match o {
        Some(n) => "Some("@ + int_decimal(n as int) + ")"@,
        None => "None"@,
    }
}

// ---------------------------------------------------------------------------
// Lemmas
// ---------------------------------------------------------------------------

/// `trim_start` skips exactly the leading whitespace.
proof fn lemma_trim_start_step(s: Seq<char>, i: int)
    requires
        0 <= i < s.len(),
        spec_is_whitespace(s[i]),
    ensures
        trim_start(s.skip(i)) == trim_start(s.skip(i + 1)),
{
    assert(s.skip(i).drop_first() =~= s.skip(i + 1));
}

proof fn lemma_trim_end_step(s: Seq<char>, j: int)
    requires
        0 < j <= s.len(),
        spec_is_whitespace(s[j - 1]),
    ensures
        trim_end(s.take(j)) == trim_end(s.take(j - 1)),
{
    assert(s.take(j).drop_last() =~= s.take(j - 1));
}

proof fn lemma_trim_end_char_step(s: Seq<char>, j: int, c: char)
    requires
        0 < j <= s.len(),
        s[j - 1] == c,
    ensures
        trim_end_char(s.take(j), c) == trim_end_char(s.take(j - 1), c),
{
    assert(s.take(j).drop_last() =~= s.take(j - 1));
}

/// Extending a digit sequence never lowers its value.
proof fn lemma_digits_value_mono(d: Seq<char>, k: int)
    requires
        all_digits(d),
        0 <= k <= d.len(),
    ensures
        digits_value(d.take(k)) <= digits_value(d),
    decreases d.len() - k,
{
    if k < d.len() {
        lemma_digits_value_mono(d, k + 1);
        let t = d.take(k + 1);
        assert(t.drop_last() =~= d.take(k));
        assert(t.last() == d[k]);
        assert(is_digit(d[k]));
        assert(all_digits(d.take(k))) by {
            assert forall|m: int| 0 <= m < k implies is_digit(#[trigger] d.take(k)[m]) by {
                assert(d.take(k)[m] == d[m]);
            }
        }
        lemma_digits_value_nonneg(d.take(k));
        assert(digits_value(t) == digits_value(d.take(k)) * 10 + (d[k] as int - '0' as int));
    } else {
        assert(d.take(k) =~= d);
    }
}

proof fn lemma_digits_value_nonneg(d: Seq<char>)
    requires
        all_digits(d),
    ensures
        digits_value(d) >= 0,
    decreases d.len(),
{
    if d.len() > 0 {
        assert(is_digit(d[d.len() - 1]));
        assert(all_digits(d.drop_last())) by {
            assert forall|m: int| 0 <= m < d.len() - 1 implies is_digit(
                #[trigger] d.drop_last()[m],
            ) by {
                assert(d.drop_last()[m] == d[m]);
            }
        }
        lemma_digits_value_nonneg(d.drop_last());
    }
}

/// There is always at least one piece.
pub proof fn lemma_split_lines_nonempty(s: Seq<char>)
    ensures
        split_lines(s).len() >= 1,
    decreases s.len(),
{
    if s.len() > 0 {
        lemma_split_lines_nonempty(s.drop_last());
    }
}

/// How the pieces of a prefix grow by one character.
pub proof fn lemma_split_lines_step(s: Seq<char>, i: int)
    requires
        0 <= i < s.len(),
    ensures
        s[i] == '\n' ==> split_lines(s.take(i + 1)) == split_lines(s.take(i)).push(seq![]),
        s[i] != '\n' ==> split_lines(s.take(i + 1)) == split_lines(s.take(i)).update(
            split_lines(s.take(i)).len() - 1,
            split_lines(s.take(i)).last().push(s[i]),
        ),
{
    assert(s.take(i + 1).drop_last() =~= s.take(i));
    assert(s.take(i + 1).last() == s[i]);
}

/// Replacing a pattern that does not occur changes nothing.
pub proof fn lemma_replace_all_absent(x: Seq<char>, p: Seq<char>, r: Seq<char>)
    requires
        p.len() > 0,
        !contains(x, p),
    ensures
        replace_all(x, p, r) == x,
    decreases x.len(),
{
    if x.len() >= p.len() {
        if x.take(p.len() as int) == p {
            assert(x.subrange(0, p.len() as int) =~= x.take(p.len() as int));
            assert(occurs_at(x, p, 0));
        }
        let t = x.drop_first();
        assert forall|i: int| !#[trigger] occurs_at(t, p, i) by {
            if occurs_at(t, p, i) {
                assert(t.subrange(i, i + p.len()) =~= x.subrange(i + 1, i + 1 + p.len()));
                assert(occurs_at(x, p, i + 1));
            }
        }
        lemma_replace_all_absent(t, p, r);
        assert(seq![x[0]] + t =~= x);
    }
}

/// A leading occurrence of the pattern is replaced, and the rest follows.
pub proof fn lemma_replace_all_prefix(x: Seq<char>, p: Seq<char>, r: Seq<char>)
    requires
        p.len() > 0,
    ensures
        replace_all(p + x, p, r) == r + replace_all(x, p, r),
{
    assert((p + x).take(p.len() as int) =~= p);
    assert((p + x).skip(p.len() as int) =~= x);
}

/// The pieces joined back together, a newline between each two.
pub open spec fn join_lines(pieces: Seq<Seq<char>>) -> Seq<char>
    decreases pieces.len(),
{
    if pieces.len() <= 1 {
        if pieces.len() == 1 {
            pieces[0]
        } else {
            seq![]
        }
    } else {
        join_lines(pieces.drop_last()) + seq!['\n'] + pieces.last()
    }
}

/// Cutting a text at its newlines gives pieces without newlines that,
/// joined with newlines, give the text back.
pub proof fn lemma_split_lines_pieces(s: Seq<char>)
    ensures
        split_lines(s).len() >= 1,
        forall|i: int, j: int|
            0 <= i < split_lines(s).len() && 0 <= j < split_lines(s)[i].len() ==> #[trigger] split_lines(
                s,
            )[i][j] != '\n',
        join_lines(split_lines(s)) == s,
    decreases s.len(),
{
    if s.len() > 0 {
        let init = s.drop_last();
        lemma_split_lines_pieces(init);
        let r = split_lines(init);
        let all = split_lines(s);
        if s.last() == '\n' {
            assert(all == r.push(seq![]));
            assert(all.drop_last() =~= r);
            assert forall|i: int, j: int|
                0 <= i < all.len() && 0 <= j < all[i].len() implies #[trigger] all[i][j] != '\n' by {
                if i < r.len() {
                    assert(all[i] == r[i]);
                }
            }
            assert(join_lines(all) =~= join_lines(r) + seq!['\n'] + seq![]);
            assert(init + seq!['\n'] =~= s);
        } else {
            let n = r.len() - 1;
            assert(all == r.update(n, r.last().push(s.last())));
            assert forall|i: int, j: int|
                0 <= i < all.len() && 0 <= j < all[i].len() implies #[trigger] all[i][j] != '\n' by {
                if i < n {
                    assert(all[i] == r[i]);
                } else {
                    if j < r[n].len() {
                        assert(all[i][j] == r[n][j]);
                    }
                }
            }
            if r.len() == 1 {
                assert(join_lines(r) == r[0]);
                assert(join_lines(all) == all[0]);
                assert(all[0] =~= init.push(s.last()));
                assert(init.push(s.last()) =~= s);
            } else {
                assert(all.drop_last() =~= r.drop_last());
                assert(join_lines(all) =~= join_lines(r.drop_last()) + seq!['\n'] + r.last().push(
                    s.last(),
                ));
                assert(join_lines(r) == join_lines(r.drop_last()) + seq!['\n'] + r.last());
                assert(init.push(s.last()) =~= s);
            }
        }
    }
}

proof fn lemma_trim_start_shape(s: Seq<char>)
    ensures
        exists|k: int|
            0 <= k <= s.len() && trim_start(s) == s.skip(k) && (forall|m: int|
                0 <= m < k ==> spec_is_whitespace(#[trigger] s[m])),
        trim_start(s).len() > 0 ==> !spec_is_whitespace(trim_start(s)[0]),
    decreases s.len(),
{
    if s.len() > 0 && spec_is_whitespace(s[0]) {
        let t = s.drop_first();
        lemma_trim_start_shape(t);
        let k = choose|k: int|
            0 <= k <= t.len() && trim_start(t) == t.skip(k) && (forall|m: int|
                0 <= m < k ==> spec_is_whitespace(#[trigger] t[m]));
        assert(t.skip(k) =~= s.skip(k + 1));
        assert forall|m: int| 0 <= m < k + 1 implies spec_is_whitespace(#[trigger] s[m]) by {
            if m > 0 {
                assert(s[m] == t[m - 1]);
            }
        }
    } else {
        assert(s.skip(0) =~= s);
    }
}

proof fn lemma_trim_end_shape(s: Seq<char>)
    ensures
        exists|k: int|
            0 <= k <= s.len() && trim_end(s) == s.take(k) && (forall|m: int|
                k <= m < s.len() ==> spec_is_whitespace(#[trigger] s[m])),
        trim_end(s).len() > 0 ==> !spec_is_whitespace(trim_end(s).last()),
    decreases s.len(),
{
    if s.len() > 0 && spec_is_whitespace(s.last()) {
        let t = s.drop_last();
        lemma_trim_end_shape(t);
        let k = choose|k: int|
            0 <= k <= t.len() && trim_end(t) == t.take(k) && (forall|m: int|
                k <= m < t.len() ==> spec_is_whitespace(#[trigger] t[m]));
        assert(t.take(k) =~= s.take(k));
        assert forall|m: int| k <= m < s.len() implies spec_is_whitespace(#[trigger] s[m]) by {
            if m < t.len() {
                assert(s[m] == t[m]);
            }
        }
    } else {
        assert(s.take(s.len() as int) =~= s);
    }
}

/// Trimming removes whitespace at both ends and nothing else: the result
/// is a piece of the text, everything before and after it is whitespace,
/// and it neither starts nor ends with whitespace.
pub proof fn lemma_trim_shape(s: Seq<char>)
    ensures
        exists|a: int, b: int|
            0 <= a <= b <= s.len() && trim(s) == s.subrange(a, b) && (forall|m: int|
                0 <= m < a ==> spec_is_whitespace(#[trigger] s[m])) && (forall|m: int|
                b <= m < s.len() ==> spec_is_whitespace(#[trigger] s[m])),
        trim(s).len() > 0 ==> !spec_is_whitespace(trim(s)[0]) && !spec_is_whitespace(
            trim(s).last(),
        ),
{
    lemma_trim_start_shape(s);
    let a = choose|a: int|
        0 <= a <= s.len() && trim_start(s) == s.skip(a) && (forall|m: int|
            0 <= m < a ==> spec_is_whitespace(#[trigger] s[m]));
    let t = trim_start(s);
    lemma_trim_end_shape(t);
    let k = choose|k: int|
        0 <= k <= t.len() && trim_end(t) == t.take(k) && (forall|m: int|
            k <= m < t.len() ==> spec_is_whitespace(#[trigger] t[m]));
    assert(t.take(k) =~= s.subrange(a, a + k));
    assert forall|m: int| a + k <= m < s.len() implies spec_is_whitespace(#[trigger] s[m]) by {
        assert(s[m] == t[m - a]);
    }
    if trim(s).len() > 0 {
        assert(trim(s)[0] == t[0]);
    }
}

/// `lex_lt` is irreflexive.
pub proof fn lemma_lex_lt_irreflexive(a: Seq<char>)
    ensures
        !lex_lt(a, a),
    decreases a.len(),
{
    if a.len() > 0 {
        lemma_lex_lt_irreflexive(a.drop_first());
    }
}

/// `lex_lt` is transitive.
pub proof fn lemma_lex_lt_transitive(a: Seq<char>, b: Seq<char>, c: Seq<char>)
    requires
        lex_lt(a, b),
        lex_lt(b, c),
    ensures
        lex_lt(a, c),
    decreases a.len(),
{
    if a.len() > 0 && b.len() > 0 && c.len() > 0 && a[0] == b[0] && b[0] == c[0] {
        lemma_lex_lt_transitive(a.drop_first(), b.drop_first(), c.drop_first());
    }
}

/// Two different sequences are ordered one way or the other, and not both.
pub proof fn lemma_lex_lt_total(a: Seq<char>, b: Seq<char>)
    ensures
        a != b ==> (lex_lt(a, b) || lex_lt(b, a)),
        !(lex_lt(a, b) && lex_lt(b, a)),
    decreases a.len(),
{
    if a.len() > 0 && b.len() > 0 {
        if a[0] == b[0] {
            lemma_lex_lt_total(a.drop_first(), b.drop_first());
            if a.drop_first() == b.drop_first() {
                assert(a =~= seq![a[0]] + a.drop_first());
                assert(b =~= seq![b[0]] + b.drop_first());
            }
        } else {
            assert((a[0] as int) != (b[0] as int));
        }
    } else if a.len() == 0 && b.len() == 0 {
        assert(a =~= b);
    }
}

// ---------------------------------------------------------------------------
// Executable operations
// ---------------------------------------------------------------------------

/// The characters of `s`, in order.
pub fn chars_of(s: &str) -> (v: Vec<char>)
    ensures
        v@ == s@,
{
    let mut v: Vec<char> = Vec::new();
    for c in it: s.chars()
        invariant
            v@ == it.seq().take(it.index()),
            it.seq() == s@,
    {
        v.push(c);
    }
    v
}

/// Decides `char::is_whitespace`.
pub fn is_whitespace(c: char) -> (b: bool)
    ensures
        b == spec_is_whitespace(c),
{
    let u = c as u32;
    (0x09 <= u && u <= 0x0d) || u == 0x20 || u == 0x85 || u == 0xa0 || u == 0x1680 || (0x2000
        <= u && u <= 0x200a) || u == 0x2028 || u == 0x2029 || u == 0x202f || u == 0x205f || u
        == 0x3000
}

/// The characters of `s` from `from` to `to`, as a new `String`.
pub fn substring(s: &str, from: usize, to: usize) -> (r: String)
    requires
        from <= to <= s@.len(),
    ensures
        r@ == s@.subrange(from as int, to as int),
{
    String::from_str(s.substring_char(from, to))
}

/// `a` followed by `b`.
pub fn concat_str(a: &str, b: &str) -> (r: String)
    ensures
        r@ == a@ + b@,
{
    let mut r = String::from_str(a);
    r.append(b);
    r
}

/// What `str::trim` returns, as a `String`.
pub fn trim_str(s: &str) -> (r: String)
    ensures
        r@ == trim(s@),
{
    let v = chars_of(s);
    let n = v.len();
    let mut i: usize = 0;
    assert(s@.skip(0) =~= s@);
    while i < n && is_whitespace(v[i])
        invariant
            i <= n,
            n == v@.len(),
            v@ == s@,
            trim_start(s@) == trim_start(s@.skip(i as int)),
        decreases n - i,
    {
        proof {
            lemma_trim_start_step(s@, i as int);
        }
        i = i + 1;
    }
    let ghost t = s@.skip(i as int);
    assert(trim_start(t) == t);
    assert(t.take((n - i) as int) =~= t);
    let mut j: usize = n;
    while j > i && is_whitespace(v[j - 1])
        invariant
            i <= j <= n,
            n == v@.len(),
            v@ == s@,
            t == s@.skip(i as int),
            trim_end(t) == trim_end(t.take(j - i)),
        decreases j,
    {
        proof {
            lemma_trim_end_step(t, (j - i) as int);
        }
        j = j - 1;
    }
    let ghost u = t.take(j - i);
    assert(trim_end(u) == u);
    assert(u =~= s@.subrange(i as int, j as int));
    assert(t.take(n - i) =~= t);
    substring(s, i, j)
}

/// What `str::trim_end_matches(c)` returns, as a `String`.
pub fn trim_end_char_str(s: &str, c: char) -> (r: String)
    ensures
        r@ == trim_end_char(s@, c),
{
    let v = chars_of(s);
    let n = v.len();
    let mut j: usize = n;
    assert(s@.take(n as int) =~= s@);
    while j > 0 && v[j - 1] == c
        invariant
            j <= n,
            n == v@.len(),
            v@ == s@,
            trim_end_char(s@, c) == trim_end_char(s@.take(j as int), c),
        decreases j,
    {
        proof {
            lemma_trim_end_char_step(s@, j as int, c);
        }
        j = j - 1;
    }
    assert(s@.take(j as int) =~= s@.subrange(0, j as int));
    substring(s, 0, j)
}

/// Whether `p` occurs in `v` at position `i`.
fn occurs_at_exec(v: &Vec<char>, p: &Vec<char>, i: usize) -> (b: bool)
    ensures
        b == occurs_at(v@, p@, i as int),
{
    if i > v.len() || p.len() > v.len() - i {
        return false;
    }
    let mut k: usize = 0;
    while k < p.len()
        invariant
            k <= p@.len(),
            i + p@.len() <= v@.len(),
            v.len() == v@.len(),
            forall|m: int| 0 <= m < k ==> v@[i + m] == p@[m],
        decreases p@.len() - k,
    {
        if v[i + k] != p[k] {
            assert(v@.subrange(i as int, i + p@.len())[k as int] != p@[k as int]);
            return false;
        }
        k = k + 1;
    }
    assert(v@.subrange(i as int, i + p@.len()) =~= p@);
    true
}

/// Decides `starts_with`.
pub fn starts_with_str(s: &str, p: &str) -> (b: bool)
    ensures
        b == starts_with(s@, p@),
{
    let v = chars_of(s);
    let pv = chars_of(p);
    let b = occurs_at_exec(&v, &pv, 0);
    assert(b ==> s@.subrange(0, p@.len() as int) =~= s@.take(p@.len() as int));
    assert(starts_with(s@, p@) ==> s@.subrange(0, p@.len() as int) =~= s@.take(p@.len() as int));
    b
}

/// What `str::strip_prefix` returns, as an owned `String`.
pub fn strip_prefix_str(s: &str, p: &str) -> (r: Option<String>)
    ensures
        match r {
            Some(rest) => strip_prefix(s@, p@) == Some(rest@),
            None => strip_prefix(s@, p@) is None,
        },
{
    if starts_with_str(s, p) {
        let n = s.unicode_len();
        let m = p.unicode_len();
        let rest = substring(s, m, n);
        assert(rest@ =~= s@.skip(m as int));
        Some(rest)
    } else {
        None
    }
}

/// Decides `contains`.
pub fn contains_str(s: &str, p: &str) -> (b: bool)
    ensures
        b == contains(s@, p@),
{
    let v = chars_of(s);
    let pv = chars_of(p);
    if pv.len() > v.len() {
        assert forall|i: int| !#[trigger] occurs_at(s@, p@, i) by {}
        return false;
    }
    let last = v.len() - pv.len();
    let mut i: usize = 0;
    while i < last
        invariant
            i <= last,
            last + pv@.len() == v@.len(),
            v@ == s@,
            pv@ == p@,
            forall|j: int| 0 <= j < i ==> !#[trigger] occurs_at(s@, p@, j),
        decreases last + 1 - i,
    {
        if occurs_at_exec(&v, &pv, i) {
            assert(occurs_at(s@, p@, i as int));
            return true;
        }
        i = i + 1;
    }
    if occurs_at_exec(&v, &pv, last) {
        assert(occurs_at(s@, p@, last as int));
        return true;
    }
    assert forall|j: int| !#[trigger] occurs_at(s@, p@, j) by {
        if 0 <= j < i {
        }
    }
    false
}

/// Decides whether two strings have the same characters.
pub fn eq_str(a: &str, b: &str) -> (r: bool)
    ensures
        r == (a@ == b@),
{
    let av = chars_of(a);
    let bv = chars_of(b);
    if av.len() != bv.len() {
        return false;
    }
    let r = occurs_at_exec(&av, &bv, 0);
    assert(r ==> a@.subrange(0, b@.len() as int) =~= a@);
    assert(a@ == b@ ==> a@.subrange(0, b@.len() as int) =~= a@);
    r
}

/// Code-point comparison of two characters.
fn char_lt(a: char, b: char) -> (r: bool)
    ensures
        r == ((a as int) < (b as int)),
{
    (a as u32) < (b as u32)
}

/// Decides `lex_lt` (the order of `String`'s `Ord`).
pub fn lex_lt_str(a: &str, b: &str) -> (r: bool)
    ensures
        r == lex_lt(a@, b@),
{
    let av = chars_of(a);
    let bv = chars_of(b);
    let mut i: usize = 0;
    assert(a@.skip(0) =~= a@);
    assert(b@.skip(0) =~= b@);
    while i < av.len() && i < bv.len() && av[i] == bv[i]
        invariant
            i <= av@.len(),
            i <= bv@.len(),
            av@ == a@,
            bv@ == b@,
            lex_lt(a@, b@) == lex_lt(a@.skip(i as int), b@.skip(i as int)),
        decreases av@.len() - i,
    {
        proof {
            assert(a@.skip(i as int).drop_first() =~= a@.skip(i + 1));
            assert(b@.skip(i as int).drop_first() =~= b@.skip(i + 1));
        }
        i = i + 1;
    }
    if i == av.len() {
        i < bv.len()
    } else if i == bv.len() {
        false
    } else {
        char_lt(av[i], bv[i])
    }
}

/// What `str::parse::<u32>().ok()` gives.
pub fn parse_u32_str(s: &str) -> (r: Option<u32>)
    ensures
        r == parse_u32(s@),
{
    let v = chars_of(s);
    let mut start: usize = 0;
    if v.len() > 0 && v[0] == '+' {
        start = 1;
    }
    let ghost d = if s@.len() > 0 && s@[0] == '+' {
        s@.drop_first()
    } else {
        s@
    };
    assert(d =~= s@.skip(start as int));
    if start == v.len() {
        return None;
    }
    let mut value: u64 = 0;
    let mut i: usize = start;
    while i < v.len()
        invariant
            start <= i <= v@.len(),
            start < v@.len(),
            v@ == s@,
            d =~= s@.skip(start as int),
            d == (if s@.len() > 0 && s@[0] == '+' {
                s@.drop_first()
            } else {
                s@
            }),
            all_digits(d.take(i - start)),
            value == digits_value(d.take(i - start)),
            value <= u32::MAX,
        decreases v@.len() - i,
    {
        let c = v[i];
        if !('0' <= c && c <= '9') {
            assert(d[i - start] == c);
            assert(!is_digit(d[i - start]));
            assert(!all_digits(d));
            return None;
        }
        let digit = (c as u32 - '0' as u32) as u64;
        proof {
            assert(d.take(i - start + 1).drop_last() =~= d.take(i - start));
            assert(d.take(i - start + 1).last() == c);
            assert forall|m: int| 0 <= m < i - start + 1 implies is_digit(
                #[trigger] d.take(i - start + 1)[m],
            ) by {
                if m < i - start {
                    assert(d.take(i - start + 1)[m] == d.take(i - start)[m]);
                }
            }
        }
        let next = value * 10 + digit;
        if next > u32::MAX as u64 {
            proof {
                if all_digits(d) {
                    lemma_digits_value_mono(d, i - start + 1);
                }
            }
            return None;
        }
        value = next;
        i = i + 1;
    }
    assert(d.take(i - start) =~= d);
    Some(value as u32)
}

/// The first whitespace-separated word of `s`, if any.
pub fn first_word_str(s: &str) -> (r: Option<String>)
    ensures
        match r {
            Some(w) => first_word(s@) == Some(w@),
            None => first_word(s@) is None,
        },
{
    let v = chars_of(s);
    let n = v.len();
    let mut i: usize = 0;
    assert(s@.skip(0) =~= s@);
    while i < n && is_whitespace(v[i])
        invariant
            i <= n,
            n == v@.len(),
            v@ == s@,
            trim_start(s@) == trim_start(s@.skip(i as int)),
        decreases n - i,
    {
        proof {
            lemma_trim_start_step(s@, i as int);
        }
        i = i + 1;
    }
    let ghost t = s@.skip(i as int);
    assert(trim_start(t) == t);
    if i == n {
        return None;
    }
    let mut j: usize = i;
    while j < n && !is_whitespace(v[j])
        invariant
            i <= j <= n,
            n == v@.len(),
            v@ == s@,
            t == s@.skip(i as int),
            word_prefix(t) == s@.subrange(i as int, j as int) + word_prefix(s@.skip(j as int)),
        decreases n - j,
    {
        proof {
            let w = s@.skip(j as int);
            assert(w.drop_first() =~= s@.skip(j + 1));
            assert(s@.subrange(i as int, j as int) + seq![w[0]] =~= s@.subrange(
                i as int,
                j + 1,
            ));
        }
        j = j + 1;
    }
    proof {
        let w = s@.skip(j as int);
        assert(word_prefix(w) =~= seq![]);
        assert(s@.subrange(i as int, j as int) + seq![] =~= s@.subrange(i as int, j as int));
    }
    Some(substring(s, i, j))
}

/// What `str::replace(p, r)` returns, for a non-empty `p`.
pub fn replace_all_str(s: &str, p: &str, r: &str) -> (out: String)
    requires
        p@.len() > 0,
    ensures
        out@ == replace_all(s@, p@, r@),
{
    let v = chars_of(s);
    let pv = chars_of(p);
    let n = v.len();
    let plen = pv.len();
    let mut out = String::new();
    let mut seg: usize = 0;
    let mut i: usize = 0;
    assert(s@.skip(0) =~= s@);
    assert(s@.subrange(0, 0) =~= seq![]);
    assert(out@ + seq![] =~= out@);
    while i < n && plen <= n - i
        invariant
            seg <= i <= n,
            n == v@.len(),
            v@ == s@,
            pv@ == p@,
            plen == p@.len(),
            plen > 0,
            replace_all(s@, p@, r@) == out@ + s@.subrange(seg as int, i as int) + replace_all(
                s@.skip(i as int),
                p@,
                r@,
            ),
        decreases n - i,
    {
        let ghost t = s@.skip(i as int);
        if occurs_at_exec(&v, &pv, i) {
            let piece = substring(s, seg, i);
            out.append(piece.as_str());
            out.append(r);
            proof {
                assert(t.take(plen as int) =~= s@.subrange(i as int, i + plen));
                assert(t.skip(plen as int) =~= s@.skip(i + plen));
                assert(s@.subrange((i + plen) as int, (i + plen) as int) =~= seq![]);
                assert(out@ + s@.subrange((i + plen) as int, (i + plen) as int) =~= out@);
            }
            i = i + plen;
            seg = i;
        } else {
            proof {
                assert(t.take(plen as int) =~= s@.subrange(i as int, i + plen));
                assert(t.drop_first() =~= s@.skip(i + 1));
                assert(s@.subrange(seg as int, i as int) + seq![t[0]] =~= s@.subrange(
                    seg as int,
                    i + 1,
                ));
            }
            i = i + 1;
        }
    }
    let piece = substring(s, seg, n);
    out.append(piece.as_str());
    proof {
        assert(s@.skip(i as int).len() < plen);
        assert(s@.subrange(seg as int, i as int) + s@.skip(i as int) =~= s@.subrange(
            seg as int,
            n as int,
        ));
    }
    out
}

/// The decimal numeral of `n`.
fn nat_decimal_str(n: u64) -> (s: String)
    ensures
        s@ == nat_decimal(n as nat),
    decreases n,
{
    proof {
        reveal_strlit("0123456789");
    }
    let digits = "0123456789";
    let d = (n % 10) as usize;
    let last = substring(digits, d, d + 1);
    assert(last@ =~= seq![digit_char(d as int)]);
    if n < 10 {
        last
    } else {
        let mut s = nat_decimal_str(n / 10);
        s.append(last.as_str());
        assert(s@ =~= nat_decimal((n / 10) as nat).push(digit_char((n % 10) as int)));
        s
    }
}

/// What `Display` prints for an `i32`.
pub fn i32_decimal_str(n: i32) -> (s: String)
    ensures
        s@ == int_decimal(n as int),
{
    if n < 0 {
        proof {
            reveal_strlit("-");
        }
        let magnitude = (0i64 - n as i64) as u64;
        let digits = nat_decimal_str(magnitude);
        concat_str("-", digits.as_str())
    } else {
        nat_decimal_str(n as u64)
    }
}

/// What `Debug` prints for an optional `i32`.
pub fn debug_opt_i32_str(o: Option<i32>) -> (s: String)
    ensures
        s@ == debug_opt_i32(o),
{
    match o {
        Some(n) => {
            let mut s = concat_str("Some(", i32_decimal_str(n).as_str());
            s.append(")");
            s
        },
        None => String::from_str("None"),
    }
}

} // verus!
