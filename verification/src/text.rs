//! Text as sequences of characters: white space, decimal numbers, literals.

use vstd::prelude::*;
use vstd::string::{StrSliceExecFns, StringExecFns};

verus! {

/// Whether Unicode calls the character white space.
pub open spec fn is_space(c: char) -> bool {
    ||| '\u{9}' <= c <= '\u{d}'
    ||| c == ' '
    ||| c == '\u{85}'
    ||| c == '\u{a0}'
    ||| c == '\u{1680}'
    ||| '\u{2000}' <= c <= '\u{200a}'
    ||| c == '\u{2028}'
    ||| c == '\u{2029}'
    ||| c == '\u{202f}'
    ||| c == '\u{205f}'
    ||| c == '\u{3000}'
}

/// Text without leading white space.
pub open spec fn trim_start(s: Seq<char>) -> Seq<char>
    decreases s.len(),
{
    if s.len() > 0 && is_space(s.first()) {
        trim_start(s.drop_first())
    } else {
        s
    }
}

/// Text without trailing white space.
pub open spec fn trim_end(s: Seq<char>) -> Seq<char>
    decreases s.len(),
{
    if s.len() > 0 && is_space(s.last()) {
        trim_end(s.drop_last())
    } else {
        s
    }
}

/// Text without white space at either end.
pub open spec fn trimmed(s: Seq<char>) -> Seq<char> {
    trim_end(trim_start(s))
}

/// Whether the character is an ASCII digit.
pub open spec fn is_digit(c: char) -> bool {
    '0' <= c <= '9'
}

/// Whether all characters are ASCII digits.
pub open spec fn all_digits(s: Seq<char>) -> bool {
    forall|i: int| 0 <= i < s.len() ==> is_digit(#[trigger] s[i])
}

/// Value of a digit.
pub open spec fn digit_value(c: char) -> nat {
    (c as int - '0' as int) as nat
}

/// Value of a run of digits.
pub open spec fn digits_value(s: Seq<char>) -> nat
    decreases s.len(),
{
    if s.len() == 0 {
        0
    } else {
        10 * digits_value(s.drop_last()) + digit_value(s.last())
    }
}

/// Number that the text spells: digits, with an optional plus sign before them.
pub open spec fn unsigned_of(s: Seq<char>) -> Option<nat> {
    let digits = if s.len() > 0 && s[0] == '+' {
        s.drop_first()
    } else {
        s
    };
    if digits.len() > 0 && all_digits(digits) {
        Some(digits_value(digits))
    } else {
        None
    }
}

/// The digit with the given value.
pub open spec fn digit_char(d: nat) -> char {
    ('0' as nat + d) as char
}

/// Decimal digits of a number.
pub open spec fn decimal(n: nat) -> Seq<char>
    decreases n,
{
    if n < 10 {
        seq![digit_char(n)]
    } else {
        decimal(n / 10).push(digit_char(n % 10))
    }
}

/// The character itself, or its capital if it is a small ASCII letter.
pub open spec fn upper(c: char) -> char {
    if 'a' <= c <= 'z' {
        (c as int - 'a' as int + 'A' as int) as char
    } else {
        c
    }
}

/// Text with its ASCII letters in upper case.
pub open spec fn uppercase(s: Seq<char>) -> Seq<char> {
    Seq::new(s.len(), |i: int| upper(s[i]))
}

/// Whether `s` begins with `prefix`.
pub open spec fn starts_with(s: Seq<char>, prefix: Seq<char>) -> bool {
    prefix.len() <= s.len() && s.take(prefix.len() as int) == prefix
}

/// Whether `s` ends with `suffix`.
pub open spec fn ends_with(s: Seq<char>, suffix: Seq<char>) -> bool {
    suffix.len() <= s.len() && s.skip(s.len() - suffix.len()) == suffix
}

/// First position at or after `from` at which `c` stands, or the length.
pub open spec fn find_from(s: Seq<char>, c: char, from: int) -> int
    decreases s.len() - from,
{
    if from < 0 || from >= s.len() {
        s.len() as int
    } else if s[from] == c {
        from
    } else {
        find_from(s, c, from + 1)
    }
}

/// What is found stands between where the search began and the end.
pub proof fn lemma_find_from(s: Seq<char>, c: char, from: int)
    requires
        0 <= from <= s.len(),
    ensures
        from <= find_from(s, c, from) <= s.len(),
        find_from(s, c, from) < s.len() ==> s[find_from(s, c, from)] == c,
        forall|k: int| from <= k < find_from(s, c, from) ==> s[k] != c,
    decreases s.len() - from,
{
    if from < s.len() && s[from] != c {
        lemma_find_from(s, c, from + 1);
    }
}

/// A search that passes over a front part that lacks the character goes on behind it.
pub proof fn lemma_find_from_concat(a: Seq<char>, b: Seq<char>, c: char, from: int)
    requires
        0 <= from <= a.len(),
        forall|k: int| from <= k < a.len() ==> a[k] != c,
    ensures
        find_from(a + b, c, from) == a.len() + find_from(b, c, 0),
    decreases a.len() - from,
{
    if from < a.len() {
        lemma_find_from_concat(a, b, c, from + 1);
    } else {
        lemma_find_from_shift(a, b, c, 0);
    }
}

/// A search in a back part finds what a search in the whole finds there.
pub proof fn lemma_find_from_shift(a: Seq<char>, b: Seq<char>, c: char, from: int)
    requires
        0 <= from <= b.len(),
    ensures
        find_from(a + b, c, a.len() + from) == a.len() + find_from(b, c, from),
    decreases b.len() - from,
{
    if from < b.len() {
        assert((a + b)[a.len() + from] == b[from]);
        lemma_find_from_shift(a, b, c, from + 1);
    }
}

/// The characters of a text.
pub fn characters(s: &str) -> (chars: Vec<char>)
    ensures
        chars@ == s@,
{
    let mut chars: Vec<char> = Vec::new();
    for c in it: s.chars()
        invariant
            chars@ == it.seq().take(it.index() as int),
            it.seq() == s@,
    {
        chars.push(c);
    }
    chars
}

pub fn space(c: char) -> (b: bool)
    ensures
        b == is_space(c),
{
    ('\u{9}' <= c && c <= '\u{d}') || c == ' ' || c == '\u{85}' || c == '\u{a0}' || c == '\u{1680}'
        || ('\u{2000}' <= c && c <= '\u{200a}') || c == '\u{2028}' || c == '\u{2029}' || c
        == '\u{202f}' || c == '\u{205f}' || c == '\u{3000}'
}

pub fn to_upper(c: char) -> (u: char)
    ensures
        u == upper(c),
{
    if 'a' <= c && c <= 'z' {
        ((c as u8 - 'a' as u8) + 'A' as u8) as char
    } else {
        c
    }
}

/// Bounds of `s[lo..hi]` without white space at either end.
pub fn trim(s: &[char], lo: usize, hi: usize) -> (r: (usize, usize))
    requires
        lo <= hi <= s@.len(),
    ensures
        lo <= r.0 <= r.1 <= hi,
        s@.subrange(r.0 as int, r.1 as int) == trimmed(s@.subrange(lo as int, hi as int)),
{
    let mut a: usize = lo;
    while a < hi && space(s[a])
        invariant
            lo <= a <= hi <= s@.len(),
            trim_start(s@.subrange(lo as int, hi as int)) == trim_start(
                s@.subrange(a as int, hi as int),
            ),
        decreases hi - a,
    {
        assert(s@.subrange(a as int, hi as int).drop_first() =~= s@.subrange(a + 1, hi as int));
        a = a + 1;
    }
    let ghost front = s@.subrange(a as int, hi as int);
    assert(trim_start(front) == front);
    let mut b: usize = hi;
    while a < b && space(s[b - 1])
        invariant
            lo <= a <= b <= hi <= s@.len(),
            trim_end(front) == trim_end(s@.subrange(a as int, b as int)),
        decreases b,
    {
        assert(s@.subrange(a as int, b as int).drop_last() =~= s@.subrange(a as int, b - 1));
        b = b - 1;
    }
    (a, b)
}

/// Whether the characters are those of the literal.
pub fn is_literal(s: &[char], literal: &str) -> (b: bool)
    ensures
        b == (s@ == literal@),
{
    let n: usize = literal.unicode_len();
    if s.len() != n {
        return false;
    }
    let mut i: usize = 0;
    while i < n
        invariant
            i <= n == literal@.len(),
            s@.len() == n,
            forall|k: int| 0 <= k < i ==> s@[k] == literal@[k],
        decreases n - i,
    {
        if s[i] != literal.get_char(i) {
            return false;
        }
        i = i + 1;
    }
    assert(s@ =~= literal@);
    true
}

/// Position of the first `c` in `s[from..]`, or the length of `s`.
pub fn find(s: &[char], c: char, from: usize) -> (i: usize)
    requires
        from <= s@.len(),
    ensures
        from <= i <= s@.len(),
        i == find_from(s@, c, from as int),
        i < s@.len() ==> s@[i as int] == c,
        forall|k: int| from <= k < i ==> s@[k] != c,
{
    let mut i: usize = from;
    while i < s.len() && s[i] != c
        invariant
            from <= i <= s@.len(),
            forall|k: int| from <= k < i ==> s@[k] != c,
            find_from(s@, c, from as int) == find_from(s@, c, i as int),
        decreases s@.len() - i,
    {
        i = i + 1;
    }
    i
}

/// More digits make a number no smaller.
proof fn lemma_digits_value_prefix(s: Seq<char>, n: int)
    requires
        0 <= n <= s.len(),
    ensures
        digits_value(s.take(n)) <= digits_value(s),
    decreases s.len(),
{
    if n < s.len() {
        lemma_digits_value_prefix(s.drop_last(), n);
        assert(s.drop_last().take(n) =~= s.take(n));
    } else {
        assert(s.take(n) =~= s);
    }
}

/// Parses an unsigned number of at most `max`.
pub fn parse_unsigned(s: &[char], max: u64) -> (r: Option<u64>)
    ensures
        match r {
            Some(n) => unsigned_of(s@) == Some(n as nat) && n <= max,
            None => match unsigned_of(s@) {
                Some(n) => n > max,
                None => true,
            },
        },
{
    let start: usize = if s.len() > 0 && s[0] == '+' {
        1
    } else {
        0
    };
    let ghost digits = s@.skip(start as int);
    assert(start == 1 ==> digits =~= s@.drop_first());
    assert(start == 0 ==> digits =~= s@);
    if start >= s.len() {
        return None;
    }
    let mut value: u128 = 0;
    let mut i: usize = start;
    assert(digits.take(0) =~= Seq::<char>::empty());
    while i < s.len()
        invariant
            start <= i <= s@.len(),
            digits == s@.skip(start as int),
            digits.len() > 0,
            unsigned_of(s@) == (if all_digits(digits) {
                Some(digits_value(digits))
            } else {
                None
            }),
            forall|k: int| 0 <= k < i - start ==> is_digit(#[trigger] digits[k]),
            value == digits_value(digits.take(i - start)),
            value <= max,
        decreases s@.len() - i,
    {
        let c: char = s[i];
        assert(c == digits[i - start]);
        if !('0' <= c && c <= '9') {
            return None;
        }
        let d: u128 = c as u128 - '0' as u128;
        value = value * 10 + d;
        proof {
            assert(digits.take(i - start + 1).drop_last() =~= digits.take(i - start));
            assert(digits.take(i - start + 1).last() == c);
            lemma_digits_value_prefix(digits, i - start + 1);
        }
        if value > max as u128 {
            return None;
        }
        i = i + 1;
    }
    assert(digits.take(i - start) =~= digits);
    Some(value as u64)
}

/// Appends one digit.
pub fn push_digit(out: &mut String, d: u8)
    requires
        d < 10,
    ensures
        final(out)@ == old(out)@.push(digit_char(d as nat)),
{
    proof {
        reveal_strlit("0");
        reveal_strlit("1");
        reveal_strlit("2");
        reveal_strlit("3");
        reveal_strlit("4");
        reveal_strlit("5");
        reveal_strlit("6");
        reveal_strlit("7");
        reveal_strlit("8");
        reveal_strlit("9");
    }
    let text: &str = match d {
        0 => "0",
        1 => "1",
        2 => "2",
        3 => "3",
        4 => "4",
        5 => "5",
        6 => "6",
        7 => "7",
        8 => "8",
        _ => "9",
    };
    out.append(text);
    assert(out@ =~= old(out)@.push(digit_char(d as nat)));
}

/// Appends a number in decimal.
pub fn push_decimal(out: &mut String, n: u64)
    ensures
        final(out)@ == old(out)@ + decimal(n as nat),
    decreases n,
{
    if n >= 10 {
        push_decimal(out, n / 10);
    }
    push_digit(out, (n % 10) as u8);
    assert(out@ =~= old(out)@ + decimal(n as nat));
}

/// Reading back the decimal digits of a number gives the number.
pub proof fn law_decimal_reads_back(n: nat)
    ensures
        all_digits(decimal(n)),
        decimal(n).len() > 0,
        digits_value(decimal(n)) == n,
        unsigned_of(decimal(n)) == Some(n),
    decreases n,
{
    if n < 10 {
        assert(decimal(n).drop_last() =~= Seq::<char>::empty());
        reveal_with_fuel(digits_value, 2);
    } else {
        law_decimal_reads_back(n / 10);
        let head = decimal(n / 10);
        let all = decimal(n);
        assert(all.drop_last() =~= head);
        assert forall|i: int| 0 <= i < all.len() implies is_digit(#[trigger] all[i]) by {
            if i < head.len() {
                assert(all[i] == head[i]);
            }
        }
    }
    assert(is_digit(decimal(n)[0]));
}

/// Trimming twice is trimming once.
pub proof fn law_trim_is_idempotent(s: Seq<char>)
    ensures
        trimmed(trimmed(s)) == trimmed(s),
        trimmed(s).len() > 0 ==> !is_space(trimmed(s).first()) && !is_space(trimmed(s).last()),
{
    lemma_trim_start(s);
    let a = trim_start(s);
    lemma_trim_end(a);
    let b = trim_end(a);
    if b.len() > 0 {
        assert(b.first() == a.first());
    }
}

proof fn lemma_trim_start(s: Seq<char>)
    ensures
        trim_start(s).len() > 0 ==> !is_space(trim_start(s).first()),
    decreases s.len(),
{
    if s.len() > 0 && is_space(s.first()) {
        lemma_trim_start(s.drop_first());
    }
}

proof fn lemma_trim_end(s: Seq<char>)
    ensures
        trim_end(s).len() <= s.len(),
        trim_end(s) == s.take(trim_end(s).len() as int),
        trim_end(s).len() > 0 ==> !is_space(trim_end(s).last()),
    decreases s.len(),
{
    if s.len() > 0 && is_space(s.last()) {
        lemma_trim_end(s.drop_last());
        let t = trim_end(s.drop_last());
        assert(s.drop_last().take(t.len() as int) =~= s.take(t.len() as int));
    } else {
        assert(s.take(s.len() as int) =~= s);
    }
}

/// Whether all characters are white space.
pub open spec fn all_space(s: Seq<char>) -> bool {
    forall|i: int| 0 <= i < s.len() ==> is_space(#[trigger] s[i])
}

/// White space in front does not survive trimming.
proof fn lemma_trim_start_front(pre: Seq<char>, rest: Seq<char>)
    requires
        all_space(pre),
    ensures
        trim_start(pre + rest) == trim_start(rest),
    decreases pre.len(),
{
    if pre.len() == 0 {
        assert(pre + rest =~= rest);
    } else {
        assert((pre + rest).first() == pre[0]);
        assert((pre + rest).drop_first() =~= pre.drop_first() + rest);
        assert(all_space(pre.drop_first()));
        lemma_trim_start_front(pre.drop_first(), rest);
    }
}

/// White space at the end does not survive trimming.
proof fn lemma_trim_end_back(rest: Seq<char>, post: Seq<char>)
    requires
        all_space(post),
    ensures
        trim_end(rest + post) == trim_end(rest),
    decreases post.len(),
{
    if post.len() == 0 {
        assert(rest + post =~= rest);
    } else {
        assert((rest + post).last() == post[post.len() - 1]);
        assert((rest + post).drop_last() =~= rest + post.drop_last());
        assert(all_space(post.drop_last()));
        lemma_trim_end_back(rest, post.drop_last());
    }
}

/// Trimming takes away the white space at both ends and nothing else: what lies
/// between is kept as it is.
pub proof fn law_trim_takes_the_white_space(pre: Seq<char>, core: Seq<char>, post: Seq<char>)
    requires
        all_space(pre),
        all_space(post),
        core.len() > 0 ==> !is_space(core.first()) && !is_space(core.last()),
    ensures
        trimmed(pre + core + post) == core,
{
    let rest = core + post;
    assert(pre + core + post =~= pre + rest);
    lemma_trim_start_front(pre, rest);
    if core.len() == 0 {
        let empty = Seq::<char>::empty();
        assert(rest =~= post + empty);
        lemma_trim_start_front(post, empty);
        assert(trim_start(empty) =~= empty);
        assert(trim_end(empty) =~= empty);
        assert(core =~= empty);
    } else {
        assert(rest.first() == core.first());
        assert(trim_start(rest) == rest);
        lemma_trim_end_back(core, post);
    }
}

/// Every text is white space around what trimming leaves of it.
pub proof fn lemma_trim_parts(s: Seq<char>) -> (r: (Seq<char>, Seq<char>))
    ensures
        all_space(r.0),
        all_space(r.1),
        s == r.0 + trimmed(s) + r.1,
        trimmed(s).len() > 0 ==> !is_space(trimmed(s).first()) && !is_space(trimmed(s).last()),
{
    law_trim_is_idempotent(s);
    let a = lemma_trim_start_part(s);
    let b = lemma_trim_end_part(trim_start(s));
    assert(s =~= a + trimmed(s) + b);
    (a, b)
}

proof fn lemma_trim_start_part(s: Seq<char>) -> (pre: Seq<char>)
    ensures
        all_space(pre),
        s == pre + trim_start(s),
    decreases s.len(),
{
    if s.len() > 0 && is_space(s.first()) {
        let rest = lemma_trim_start_part(s.drop_first());
        let pre = seq![s.first()] + rest;
        assert(s =~= seq![s.first()] + s.drop_first());
        assert(pre + trim_start(s) =~= seq![s.first()] + (rest + trim_start(s)));
        assert forall|i: int| 0 <= i < pre.len() implies is_space(#[trigger] pre[i]) by {
            if i > 0 {
                assert(pre[i] == rest[i - 1]);
            }
        }
        pre
    } else {
        assert(s =~= Seq::<char>::empty() + s);
        Seq::empty()
    }
}

proof fn lemma_trim_end_part(s: Seq<char>) -> (post: Seq<char>)
    ensures
        all_space(post),
        s == trim_end(s) + post,
    decreases s.len(),
{
    if s.len() > 0 && is_space(s.last()) {
        let rest = lemma_trim_end_part(s.drop_last());
        let post = rest.push(s.last());
        assert(s =~= s.drop_last().push(s.last()));
        assert(trim_end(s) + post =~= (trim_end(s) + rest).push(s.last()));
        assert forall|i: int| 0 <= i < post.len() implies is_space(#[trigger] post[i]) by {
            if i < rest.len() {
                assert(post[i] == rest[i]);
            }
        }
        post
    } else {
        assert(s =~= s + Seq::<char>::empty());
        Seq::empty()
    }
}

/// A text spells a number if it consists of digits, at least one, with a plus
/// sign before them or not.
pub proof fn law_numbers_are_digits(s: Seq<char>)
    ensures
        unsigned_of(s) is Some <==> exists|k: int|
            #![trigger s.skip(k)]
            (k == 0 || (k == 1 && s.len() > 0 && s[0] == '+')) && s.len() > k && forall|i: int|
                k <= i < s.len() ==> '0' <= #[trigger] s[i] <= '9',
{
    let k: int = if s.len() > 0 && s[0] == '+' {
        1
    } else {
        0
    };
    let digits = s.skip(k);
    if k == 1 {
        assert(digits =~= s.drop_first());
    } else {
        assert(digits =~= s);
    }
    if unsigned_of(s) is Some {
        assert forall|i: int| k <= i < s.len() implies '0' <= #[trigger] s[i] <= '9' by {
            assert(is_digit(digits[i - k]));
        }
        assert(s.skip(k) == digits);
    }
    if exists|j: int|
        #![trigger s.skip(j)]
        (j == 0 || (j == 1 && s.len() > 0 && s[0] == '+')) && s.len() > j && forall|i: int|
            j <= i < s.len() ==> '0' <= #[trigger] s[i] <= '9' {
        let j = choose|j: int|
            #![trigger s.skip(j)]
            (j == 0 || (j == 1 && s.len() > 0 && s[0] == '+')) && s.len() > j && forall|i: int|
                j <= i < s.len() ==> '0' <= #[trigger] s[i] <= '9';
        if j != k {
            assert('0' <= s[0] <= '9');
        }
        assert forall|i: int| 0 <= i < digits.len() implies is_digit(#[trigger] digits[i]) by {
            assert(digits[i] == s[i + k]);
        }
    }
}

/// A digit counts as itself, one more digit makes ten times the number and that
/// digit, and a plus sign makes no difference.
pub proof fn law_digits_are_decimal(s: Seq<char>, c: char)
    requires
        '0' <= c <= '9',
    ensures
        unsigned_of(seq![c]) == Some((c as int - '0' as int) as nat),
        unsigned_of(s) matches Some(n) ==> unsigned_of(s.push(c)) == Some(
            (10 * n + (c as int - '0' as int)) as nat,
        ),
        s.len() > 0 && s[0] != '+' ==> unsigned_of(seq!['+'] + s) == unsigned_of(s),
{
    let one = seq![c];
    assert(one.drop_last() =~= Seq::<char>::empty());
    reveal_with_fuel(digits_value, 2);
    assert(all_digits(one));
    assert(one[0] == c);
    if unsigned_of(s) is Some {
        let longer = s.push(c);
        let digits = if s[0] == '+' {
            s.drop_first()
        } else {
            s
        };
        let more = digits.push(c);
        assert(longer[0] == s[0]);
        assert(s[0] == '+' ==> longer.drop_first() =~= more);
        assert(more.drop_last() =~= digits);
        assert forall|i: int| 0 <= i < more.len() implies is_digit(#[trigger] more[i]) by {
            if i < digits.len() {
                assert(more[i] == digits[i]);
            }
        }
    }
    assert((seq!['+'] + s).drop_first() =~= s);
}

/// Decimal digits do not begin with a zero, unless the number is zero.
pub proof fn law_decimal_has_no_leading_zero(n: nat)
    requires
        n > 0,
    ensures
        decimal(n).len() > 0,
        decimal(n)[0] != '0',
    decreases n,
{
    if n >= 10 {
        law_decimal_has_no_leading_zero(n / 10);
        assert(decimal(n)[0] == decimal(n / 10)[0]);
    }
}

/// Two texts spell the same number in decimal only if they are the same.
pub proof fn law_decimal_tells_numbers_apart(a: nat, b: nat)
    requires
        decimal(a) == decimal(b),
    ensures
        a == b,
{
    law_decimal_reads_back(a);
    law_decimal_reads_back(b);
}

/// One more digit makes ten times the value and that digit.
pub proof fn lemma_push_digit(s: Seq<char>, d: nat)
    requires
        all_digits(s),
        d < 10,
    ensures
        all_digits(s.push(digit_char(d))),
        digits_value(s.push(digit_char(d))) == 10 * digits_value(s) + d,
{
    let longer = s.push(digit_char(d));
    assert(longer.drop_last() =~= s);
    assert forall|i: int| 0 <= i < longer.len() implies is_digit(#[trigger] longer[i]) by {
        if i < s.len() {
            assert(longer[i] == s[i]);
        }
    }
}

} // verus!
