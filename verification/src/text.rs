//! Character-level building blocks every other module speaks in: whitespace and
//! digit classes, decimal rendering and parsing, trimming, and the conversions
//! between `str`/`String` and the character vectors the proofs reason over.

use vstd::prelude::*;
use vstd::string::*;

verus! {

/// Unicode `White_Space`: the set `char::is_whitespace` and `str::split_whitespace`
/// test against.
pub open spec fn is_space(c: char) -> bool {
    let n = c as u32;
    ||| (9 <= n && n <= 13)
    ||| n == 32
    ||| n == 0x85
    ||| n == 0xA0
    ||| n == 0x1680
    ||| (0x2000 <= n && n <= 0x200A)
    ||| n == 0x2028
    ||| n == 0x2029
    ||| n == 0x202F
    ||| n == 0x205F
    ||| n == 0x3000
}

/// `char::is_ascii_whitespace`: space, tab, line feed, form feed, carriage return.
pub open spec fn is_ascii_space(c: char) -> bool {
    c == ' ' || c == '\t' || c == '\n' || c == '\x0C' || c == '\r'
}

pub open spec fn is_digit(c: char) -> bool {
    '0' <= c && c <= '9'
}

/// A non-empty run of ASCII digits: no sign, no whitespace, no `+`.
pub open spec fn all_digits(s: Seq<char>) -> bool {
    s.len() > 0 && forall|i: int| 0 <= i < s.len() ==> is_digit(#[trigger] s[i])
}

pub fn space_char(c: char) -> (b: bool)
    ensures
        b == is_space(c),
{
    let n = c as u32;
    (9 <= n && n <= 13) || n == 32 || n == 0x85 || n == 0xA0 || n == 0x1680 || (0x2000 <= n
        && n <= 0x200A) || n == 0x2028 || n == 0x2029 || n == 0x202F || n == 0x205F || n == 0x3000
}

pub fn ascii_space_char(c: char) -> (b: bool)
    ensures
        b == is_ascii_space(c),
{
    c == ' ' || c == '\t' || c == '\n' || c == '\x0C' || c == '\r'
}

pub fn digit_char(c: char) -> (b: bool)
    ensures
        b == is_digit(c),
{
    '0' <= c && c <= '9'
}

/// The characters of a string slice, in order.
pub fn chars_of(s: &str) -> (res: Vec<char>)
    ensures
        res@ == s@,
{
    let n = s.unicode_len();
    let mut out: Vec<char> = Vec::new();
    let mut i: usize = 0;
    while i < n
        invariant
            n == s@.len(),
            i <= n,
            out@ == s@.subrange(0, i as int),
        decreases n - i,
    {
        out.push(s.get_char(i));
        i += 1;
    }
    out
}

/// A string holding exactly `chars`.
#[verifier::external_body]
pub fn string_of(chars: &Vec<char>) -> (res: String)
    ensures
        res@ == chars@,
{
    String::from_iter(chars.iter())
}

/// Append every character of `s` to `out`.
pub fn push_str(out: &mut Vec<char>, s: &str)
    ensures
        final(out)@ == old(out)@ + s@,
{
    let cs = chars_of(s);
    push_all(out, &cs);
}

/// Append `more` to `out`.
pub fn push_all(out: &mut Vec<char>, more: &Vec<char>)
    ensures
        final(out)@ == old(out)@ + more@,
{
    let ghost start = out@;
    let mut i: usize = 0;
    while i < more.len()
        invariant
            i <= more.len(),
            out@ == start + more@.subrange(0, i as int),
        decreases more.len() - i,
    {
        out.push(more[i]);
        i += 1;
        assert(out@ == start + more@.subrange(0, i as int));
    }
    assert(more@.subrange(0, more@.len() as int) == more@);
}

/// Whether two character sequences are equal.
pub fn chars_eq(a: &Vec<char>, b: &Vec<char>) -> (r: bool)
    ensures
        r == (a@ == b@),
{
    if a.len() != b.len() {
        return false;
    }
    let mut i: usize = 0;
    while i < a.len()
        invariant
            a.len() == b.len(),
            i <= a.len(),
            forall|j: int| 0 <= j < i ==> a@[j] == b@[j],
        decreases a.len() - i,
    {
        if a[i] != b[i] {
            return false;
        }
        i += 1;
    }
    assert(a@ =~= b@);
    true
}

/// Whether `prefix` opens `s`.
pub open spec fn starts_with(s: Seq<char>, prefix: Seq<char>) -> bool {
    prefix.len() <= s.len() && s.subrange(0, prefix.len() as int) == prefix
}

pub fn chars_start_with(s: &Vec<char>, prefix: &Vec<char>) -> (r: bool)
    ensures
        r == starts_with(s@, prefix@),
{
    if prefix.len() > s.len() {
        return false;
    }
    let mut i: usize = 0;
    while i < prefix.len()
        invariant
            prefix.len() <= s.len(),
            i <= prefix.len(),
            forall|j: int| 0 <= j < i ==> s@[j] == prefix@[j],
        decreases prefix.len() - i,
    {
        if s[i] != prefix[i] {
            assert(s@.subrange(0, prefix@.len() as int)[i as int] != prefix@[i as int]);
            return false;
        }
        i += 1;
    }
    assert(s@.subrange(0, prefix@.len() as int) =~= prefix@);
    true
}

/// Whether `c` occurs in `s`.
pub fn chars_contain(s: &Vec<char>, c: char) -> (r: bool)
    ensures
        r == s@.contains(c),
{
    let mut i: usize = 0;
    while i < s.len()
        invariant
            i <= s.len(),
            forall|j: int| 0 <= j < i ==> s@[j] != c,
        decreases s.len() - i,
    {
        if s[i] == c {
            return true;
        }
        i += 1;
    }
    false
}

// --- decimal ---------------------------------------------------------------

pub open spec fn digit_of(d: nat) -> char {
    if d == 0 {
        '0'
    } else if d == 1 {
        '1'
    } else if d == 2 {
        '2'
    } else if d == 3 {
        '3'
    } else if d == 4 {
        '4'
    } else if d == 5 {
        '5'
    } else if d == 6 {
        '6'
    } else if d == 7 {
        '7'
    } else if d == 8 {
        '8'
    } else {
        '9'
    }
}

pub open spec fn value_of(c: char) -> nat {
    if c == '0' {
        0
    } else if c == '1' {
        1
    } else if c == '2' {
        2
    } else if c == '3' {
        3
    } else if c == '4' {
        4
    } else if c == '5' {
        5
    } else if c == '6' {
        6
    } else if c == '7' {
        7
    } else if c == '8' {
        8
    } else {
        9
    }
}

/// The decimal digits of `n`, most significant first, with no leading zero.
pub open spec fn decimal(n: nat) -> Seq<char>
    decreases n,
{
    if n < 10 {
        seq![digit_of(n)]
    } else {
        decimal(n / 10).push(digit_of(n % 10))
    }
}

/// `n` in decimal, with a leading `-` when negative.
pub open spec fn int_text(n: int) -> Seq<char> {
    if n < 0 {
        seq!['-'] + decimal((-n) as nat)
    } else {
        decimal(n as nat)
    }
}

fn digit_to_char(d: u64) -> (c: char)
    requires
        d < 10,
    ensures
        c == digit_of(d as nat),
{
    if d == 0 {
        '0'
    } else if d == 1 {
        '1'
    } else if d == 2 {
        '2'
    } else if d == 3 {
        '3'
    } else if d == 4 {
        '4'
    } else if d == 5 {
        '5'
    } else if d == 6 {
        '6'
    } else if d == 7 {
        '7'
    } else if d == 8 {
        '8'
    } else {
        '9'
    }
}

fn char_to_digit(c: char) -> (d: u64)
    requires
        is_digit(c),
    ensures
        d == value_of(c),
        d < 10,
{
    if c == '0' {
        0
    } else if c == '1' {
        1
    } else if c == '2' {
        2
    } else if c == '3' {
        3
    } else if c == '4' {
        4
    } else if c == '5' {
        5
    } else if c == '6' {
        6
    } else if c == '7' {
        7
    } else if c == '8' {
        8
    } else {
        9
    }
}

/// Append the decimal digits of `n`.
pub fn push_u64(out: &mut Vec<char>, n: u64)
    ensures
        final(out)@ == old(out)@ + decimal(n as nat),
    decreases n,
{
    if n >= 10 {
        push_u64(out, n / 10);
    }
    out.push(digit_to_char(n % 10));
    assert(decimal(n as nat) == (if n < 10 {
        seq![digit_of(n as nat)]
    } else {
        decimal((n / 10) as nat).push(digit_of((n % 10) as nat))
    }));
}

/// Append `n` in decimal, signed.
pub fn push_i64(out: &mut Vec<char>, n: i64)
    ensures
        final(out)@ == old(out)@ + int_text(n as int),
{
    if n < 0 {
        out.push('-');
        let magnitude: u64 = if n == i64::MIN {
            9223372036854775808u64
        } else {
            (-n) as u64
        };
        push_u64(out, magnitude);
        assert(out@ =~= old(out)@ + (seq!['-'] + decimal((-(n as int)) as nat)));
    } else {
        push_u64(out, n as u64);
    }
}

/// The value of a run of digits, read most significant first.
pub open spec fn digits_value(s: Seq<char>) -> nat
    decreases s.len(),
{
    if s.len() == 0 {
        0
    } else {
        digits_value(s.drop_last()) * 10 + value_of(s.last())
    }
}

/// What `str::parse::<i64>` accepts: an optional `+` or `-` and then digits.
pub open spec fn signed_value(s: Seq<char>) -> Option<int> {
    if s.len() > 0 && s[0] == '-' && all_digits(s.drop_first()) {
        Some(-(digits_value(s.drop_first()) as int))
    } else if s.len() > 0 && s[0] == '+' && all_digits(s.drop_first()) {
        Some(digits_value(s.drop_first()) as int)
    } else if all_digits(s) {
        Some(digits_value(s) as int)
    } else {
        None
    }
}

/// `str::parse::<i64>`'s answer: the value when it fits, else nothing.
pub open spec fn parsed_i64(s: Seq<char>) -> Option<i64> {
    match signed_value(s) {
        Some(v) => if i64::MIN <= v <= i64::MAX {
            Some(v as i64)
        } else {
            None
        },
        None => None,
    }
}

/// The digits of a number read back as that number.
pub proof fn lemma_decimal_reads_back(n: nat)
    ensures
        all_digits(decimal(n)),
        digits_value(decimal(n)) == n,
        decimal(n).len() > 0,
        decimal(n)[0] != '-' && decimal(n)[0] != '+',
    decreases n,
{
    if n < 10 {
        assert(value_of(digit_of(n)) == n);
        assert(seq![digit_of(n)].drop_last() =~= Seq::<char>::empty());
        assert(digits_value(Seq::<char>::empty()) == 0);
        assert(digits_value(decimal(n)) == digits_value(Seq::<char>::empty()) * 10 + value_of(digit_of(n)));
    } else {
        lemma_decimal_reads_back(n / 10);
        let d = (n % 10) as nat;
        assert(value_of(digit_of(d)) == d);
        let s = decimal(n);
        assert(s.drop_last() =~= decimal(n / 10));
        assert forall|i: int| 0 <= i < s.len() implies is_digit(#[trigger] s[i]) by {
            if i < s.len() - 1 {
                assert(s[i] == decimal(n / 10)[i]);
            }
        }
        assert(s[0] == decimal(n / 10)[0]);
        assert(s.last() == digit_of(d));
        assert(digits_value(s) == digits_value(decimal(n / 10)) * 10 + value_of(digit_of(d)));
        assert((n / 10) * 10 + n % 10 == n) by (nonlinear_arith);
    }
}

/// An `i64` written in decimal parses back as itself: what `str::parse::<i64>`
/// reads of what `to_string` wrote.
pub proof fn lemma_int_text_reads_back(n: i64)
    ensures
        parsed_i64(int_text(n as int)) == Some(n),
{
    if n < 0 {
        let k = (-(n as int)) as nat;
        lemma_decimal_reads_back(k);
        let s = int_text(n as int);
        assert(s.drop_first() =~= decimal(k));
    } else {
        lemma_decimal_reads_back(n as nat);
    }
}

proof fn lemma_digits_value_monotone(s: Seq<char>, i: int, j: int)
    requires
        0 <= i <= j <= s.len(),
    ensures
        digits_value(s.subrange(0, i)) <= digits_value(s.subrange(0, j)),
    decreases j - i,
{
    if i < j {
        lemma_digits_value_monotone(s, i, j - 1);
        assert(s.subrange(0, j).drop_last() =~= s.subrange(0, j - 1));
    }
}

/// The magnitude of a digit run, or `None` past `limit`.
fn digits_up_to(s: &Vec<char>, from: usize, limit: u64) -> (res: Option<u64>)
    requires
        from <= s.len(),
        all_digits(s@.subrange(from as int, s.len() as int)),
    ensures
        match res {
            Some(v) => v as nat == digits_value(s@.subrange(from as int, s.len() as int)) && v
                <= limit,
            None => digits_value(s@.subrange(from as int, s.len() as int)) > limit,
        },
{
    let ghost body = s@.subrange(from as int, s.len() as int);
    let mut acc: u64 = 0;
    let mut i: usize = from;
    while i < s.len()
        invariant
            from <= i <= s.len(),
            body == s@.subrange(from as int, s.len() as int),
            all_digits(body),
            acc as nat == digits_value(body.subrange(0, i - from)),
            acc <= limit,
        decreases s.len() - i,
    {
        assert(is_digit(body[i - from]));
        assert(body[i - from] == s@[i as int]);
        let d = char_to_digit(s[i]);
        assert(body.subrange(0, i - from + 1).drop_last() =~= body.subrange(0, i - from));
        assert(digits_value(body.subrange(0, i - from + 1)) == acc * 10 + d);
        if d > limit {
            proof {
                lemma_digits_value_monotone(body, i - from + 1, body.len() as int);
                assert(body.subrange(0, body.len() as int) =~= body);
            }
            return None;
        }
        if acc > (limit - d) / 10 {
            proof {
                assert(acc * 10 + d > limit) by (nonlinear_arith)
                    requires
                        acc > (limit - d) / 10,
                        d <= limit,
                ;
                lemma_digits_value_monotone(body, i - from + 1, body.len() as int);
                assert(body.subrange(0, body.len() as int) =~= body);
            }
            return None;
        }
        assert(acc * 10 + d <= limit) by (nonlinear_arith)
            requires
                acc <= (limit - d) / 10,
                d <= limit,
        ;
        acc = acc * 10 + d;
        i += 1;
    }
    assert(body.subrange(0, body.len() as int) =~= body);
    Some(acc)
}

/// `str::parse::<i64>` over the characters of `s`, written out.
pub fn parse_i64(s: &Vec<char>) -> (res: Option<i64>)
    ensures
        res == parsed_i64(s@),
{
    let n = s.len();
    if n == 0 {
        return None;
    }
    let (from, negative) = if s[0] == '-' {
        (1usize, true)
    } else if s[0] == '+' {
        (1usize, false)
    } else {
        (0usize, false)
    };
    if from == n {
        assert(!all_digits(s@.drop_first()));
        assert(!is_digit(s@[0]));
        return None;
    }
    let mut i = from;
    while i < n
        invariant
            from <= i <= n,
            n == s.len(),
            n > 0,
            from <= 1,
            from == 1 ==> (s@[0] == '-' || s@[0] == '+'),
            from == 0 ==> (s@[0] != '-' && s@[0] != '+'),
            negative <==> (from == 1 && s@[0] == '-'),
            forall|j: int| from <= j < i ==> is_digit(#[trigger] s@[j]),
        decreases n - i,
    {
        if !digit_char(s[i]) {
            proof {
                if from == 1 {
                    assert(s@.drop_first()[i - 1] == s@[i as int]);
                    assert(!all_digits(s@.drop_first()));
                    assert(!is_digit(s@[0]));
                } else {
                    assert(!all_digits(s@));
                }
            }
            return None;
        }
        i += 1;
    }
    let ghost rest = s@.subrange(from as int, n as int);
    assert(all_digits(rest)) by {
        assert forall|j: int| 0 <= j < rest.len() implies is_digit(#[trigger] rest[j]) by {
            assert(rest[j] == s@[from + j]);
        }
    }
    proof {
        if from == 1 {
            assert(rest =~= s@.drop_first());
        } else {
            assert(rest =~= s@);
        }
    }
    if negative {
        match digits_up_to(s, from, 9223372036854775808u64) {
            Some(v) => {
                if v == 9223372036854775808u64 {
                    Some(i64::MIN)
                } else {
                    Some(-(v as i64))
                }
            },
            None => None,
        }
    } else {
        match digits_up_to(s, from, 9223372036854775807u64) {
            Some(v) => Some(v as i64),
            None => None,
        }
    }
}

// --- trimming --------------------------------------------------------------

pub open spec fn trim_start(s: Seq<char>) -> Seq<char>
    decreases s.len(),
{
    if s.len() > 0 && is_space(s[0]) {
        trim_start(s.drop_first())
    } else {
        s
    }
}

pub open spec fn trim_end(s: Seq<char>) -> Seq<char>
    decreases s.len(),
{
    if s.len() > 0 && is_space(s.last()) {
        trim_end(s.drop_last())
    } else {
        s
    }
}

/// `str::trim`: leading and trailing Unicode whitespace removed.
pub open spec fn trim(s: Seq<char>) -> Seq<char> {
    trim_end(trim_start(s))
}

proof fn lemma_trim_start_suffix(s: Seq<char>, i: int)
    requires
        0 <= i <= s.len(),
        forall|j: int| 0 <= j < i ==> is_space(#[trigger] s[j]),
    ensures
        trim_start(s) == trim_start(s.subrange(i, s.len() as int)),
    decreases i,
{
    if i > 0 {
        assert(is_space(s[0]));
        let t = s.drop_first();
        assert forall|j: int| 0 <= j < i - 1 implies is_space(#[trigger] t[j]) by {
            assert(t[j] == s[j + 1]);
        }
        lemma_trim_start_suffix(t, i - 1);
        assert(t.subrange(i - 1, t.len() as int) =~= s.subrange(i, s.len() as int));
    } else {
        assert(s.subrange(0, s.len() as int) =~= s);
    }
}

proof fn lemma_trim_end_prefix(s: Seq<char>, k: int)
    requires
        0 <= k <= s.len(),
        forall|j: int| k <= j < s.len() ==> is_space(#[trigger] s[j]),
    ensures
        trim_end(s) == trim_end(s.subrange(0, k)),
    decreases s.len() - k,
{
    if k < s.len() {
        assert(is_space(s.last()));
        let t = s.drop_last();
        lemma_trim_end_prefix(t, k);
        assert(t.subrange(0, k) =~= s.subrange(0, k));
    } else {
        assert(s.subrange(0, k) =~= s);
    }
}

/// `str::trim` over characters.
pub fn trim_chars(s: &Vec<char>) -> (res: Vec<char>)
    ensures
        res@ == trim(s@),
{
    let n = s.len();
    let mut i: usize = 0;
    while i < n && space_char(s[i])
        invariant
            i <= n,
            n == s.len(),
            forall|j: int| 0 <= j < i ==> is_space(#[trigger] s@[j]),
        decreases n - i,
    {
        i += 1;
    }
    proof {
        lemma_trim_start_suffix(s@, i as int);
    }
    let ghost t = s@.subrange(i as int, n as int);
    assert(trim_start(t) == t);
    let mut k: usize = n;
    while k > i && space_char(s[k - 1])
        invariant
            i <= k <= n,
            n == s.len(),
            forall|j: int| k <= j < n ==> is_space(#[trigger] s@[j]),
        decreases k,
    {
        k -= 1;
    }
    proof {
        assert forall|j: int| k - i <= j < t.len() implies is_space(#[trigger] t[j]) by {
            assert(t[j] == s@[i + j]);
        }
        lemma_trim_end_prefix(t, k - i);
        let u = t.subrange(0, k - i);
        if u.len() > 0 {
            assert(u.last() == s@[k - 1]);
        }
        assert(trim_end(u) == u);
        assert(u =~= s@.subrange(i as int, k as int));
    }
    let mut out: Vec<char> = Vec::new();
    let mut j: usize = i;
    while j < k
        invariant
            i <= j <= k,
            k <= n,
            n == s.len(),
            out@ == s@.subrange(i as int, j as int),
        decreases k - j,
    {
        out.push(s[j]);
        j += 1;
        assert(out@ =~= s@.subrange(i as int, j as int));
    }
    out
}

// --- case and ordering -----------------------------------------------------

/// `char::to_ascii_lowercase`.
pub open spec fn ascii_lower(c: char) -> char {
    if 'A' <= c && c <= 'Z' {
        ((c as u32) + 32) as char
    } else {
        c
    }
}

pub fn ascii_lower_char(c: char) -> (r: char)
    ensures
        r == ascii_lower(c),
{
    if 'A' <= c && c <= 'Z' {
        ((c as u8) + 32) as char
    } else {
        c
    }
}

/// `str::eq_ignore_ascii_case`.
pub open spec fn eq_ignore_ascii_case(a: Seq<char>, b: Seq<char>) -> bool {
    a.len() == b.len() && forall|i: int| 0 <= i < a.len() ==> ascii_lower(#[trigger] a[i])
        == ascii_lower(b[i])
}

pub fn chars_eq_ignore_ascii_case(a: &Vec<char>, b: &Vec<char>) -> (r: bool)
    ensures
        r == eq_ignore_ascii_case(a@, b@),
{
    if a.len() != b.len() {
        return false;
    }
    let mut i: usize = 0;
    while i < a.len()
        invariant
            a.len() == b.len(),
            i <= a.len(),
            forall|j: int| 0 <= j < i ==> ascii_lower(#[trigger] a@[j]) == ascii_lower(b@[j]),
        decreases a.len() - i,
    {
        if ascii_lower_char(a[i]) != ascii_lower_char(b[i]) {
            return false;
        }
        i += 1;
    }
    true
}

/// Strict lexicographic order by code point, which is the order `str`'s `Ord`
/// gives: UTF-8 byte order and code-point order agree.
pub open spec fn seq_lt(a: Seq<char>, b: Seq<char>) -> bool
    decreases a.len(),
{
    if a.len() == 0 {
        b.len() > 0
    } else if b.len() == 0 {
        false
    } else if a[0] != b[0] {
        a[0] < b[0]
    } else {
        seq_lt(a.drop_first(), b.drop_first())
    }
}

/// -1, 0 or 1 as `a` sorts before, equal to or after `b`.
pub open spec fn seq_order(a: Seq<char>, b: Seq<char>) -> int {
    if seq_lt(a, b) {
        -1
    } else if a == b {
        0
    } else {
        1
    }
}

pub proof fn lemma_seq_lt_total(a: Seq<char>, b: Seq<char>)
    ensures
        seq_lt(a, b) || a == b || seq_lt(b, a),
        !(seq_lt(a, b) && seq_lt(b, a)),
        !(seq_lt(a, b) && a == b),
    decreases a.len(),
{
    if a.len() > 0 && b.len() > 0 && a[0] == b[0] {
        lemma_seq_lt_total(a.drop_first(), b.drop_first());
        if a.drop_first() == b.drop_first() {
            assert(a =~= seq![a[0]] + a.drop_first());
            assert(b =~= seq![b[0]] + b.drop_first());
        }
    } else if a.len() == 0 && b.len() == 0 {
        assert(a =~= b);
    }
}

pub proof fn lemma_seq_lt_transitive(a: Seq<char>, b: Seq<char>, c: Seq<char>)
    requires
        seq_lt(a, b),
        seq_lt(b, c),
    ensures
        seq_lt(a, c),
    decreases a.len(),
{
    if a.len() > 0 && b.len() > 0 && c.len() > 0 && a[0] == b[0] && b[0] == c[0] {
        lemma_seq_lt_transitive(a.drop_first(), b.drop_first(), c.drop_first());
    }
}

pub fn chars_order(a: &Vec<char>, b: &Vec<char>) -> (r: i8)
    ensures
        r as int == seq_order(a@, b@),
{
    let mut i: usize = 0;
    assert(a@.subrange(0, a@.len() as int) =~= a@);
    assert(b@.subrange(0, b@.len() as int) =~= b@);
    while i < a.len() && i < b.len()
        invariant
            i <= a.len(),
            i <= b.len(),
            forall|j: int| 0 <= j < i ==> a@[j] == b@[j],
            seq_lt(a@, b@) == seq_lt(a@.subrange(i as int, a@.len() as int), b@.subrange(i as int, b@.len() as int)),
        decreases a.len() - i,
    {
        if a[i] != b[i] {
            proof {
                let x = a@.subrange(i as int, a@.len() as int);
                let y = b@.subrange(i as int, b@.len() as int);
                assert(x[0] == a@[i as int]);
                assert(y[0] == b@[i as int]);
                lemma_seq_lt_total(a@, b@);
            }
            if a[i] < b[i] {
                return -1;
            } else {
                assert(a@[i as int] != b@[i as int]);
                assert(a@ != b@);
                return 1;
            }
        }
        proof {
            let x = a@.subrange(i as int, a@.len() as int);
            let y = b@.subrange(i as int, b@.len() as int);
            assert(x.drop_first() =~= a@.subrange(i + 1, a@.len() as int));
            assert(y.drop_first() =~= b@.subrange(i + 1, b@.len() as int));
        }
        i += 1;
    }
    proof {
        lemma_seq_lt_total(a@, b@);
    }
    if a.len() < b.len() {
        -1
    } else if a.len() == b.len() {
        assert(a@ =~= b@);
        0
    } else {
        assert(a@ != b@);
        1
    }
}

// --- keys ------------------------------------------------------------------

/// One character of a file-name segment: a `.` becomes `-`, so a joined key holds
/// only the dots that join it; anything outside ASCII letters, digits, `-` and
/// `_` becomes `_`.
pub open spec fn key_char(c: char) -> char {
    if c == '.' {
        '-'
    } else if ('a' <= c && c <= 'z') || ('A' <= c && c <= 'Z') || is_digit(c) || c == '-' || c
        == '_' {
        c
    } else {
        '_'
    }
}

/// A string made safe to be one segment of a file name.
pub open spec fn sanitise(s: Seq<char>) -> Seq<char> {
    s.map_values(|c: char| key_char(c))
}

pub fn sanitise_chars(s: &Vec<char>) -> (r: Vec<char>)
    ensures
        r@ == sanitise(s@),
{
    let mut out: Vec<char> = Vec::new();
    let mut i: usize = 0;
    while i < s.len()
        invariant
            i <= s.len(),
            out@ == s@.subrange(0, i as int).map_values(|c: char| key_char(c)),
        decreases s.len() - i,
    {
        let c = s[i];
        let k = if c == '.' {
            '-'
        } else if ('a' <= c && c <= 'z') || ('A' <= c && c <= 'Z') || ('0' <= c && c <= '9') || c
            == '-' || c == '_' {
            c
        } else {
            '_'
        };
        out.push(k);
        i += 1;
        assert(out@ =~= s@.subrange(0, i as int).map_values(|c: char| key_char(c)));
    }
    assert(s@.subrange(0, s@.len() as int) =~= s@);
    out
}

/// `sanitise_key` on a string: the segment as a file name may hold it.
pub fn sanitise_key(s: &str) -> (r: String)
    ensures
        r@ == sanitise(s@),
{
    let cs = chars_of(s);
    let k = sanitise_chars(&cs);
    string_of(&k)
}

/// The character views of a list of strings.
pub open spec fn views(v: Seq<String>) -> Seq<Seq<char>> {
    v.map_values(|s: String| s@)
}

pub proof fn lemma_views_push(v: Seq<String>, s: String)
    ensures
        views(v.push(s)) == views(v).push(s@),
{
    assert(views(v.push(s)) =~= views(v).push(s@));
}

// --- splitting -------------------------------------------------------------

/// `str::split(sep)` as a left-to-right scan: the finished pieces and the one
/// still being read.
pub open spec fn split_scan(s: Seq<char>, sep: char) -> (Seq<Seq<char>>, Seq<char>)
    decreases s.len(),
{
    if s.len() == 0 {
        (seq![], seq![])
    } else {
        let (done, cur) = split_scan(s.drop_last(), sep);
        if s.last() == sep {
            (done.push(cur), seq![])
        } else {
            (done, cur.push(s.last()))
        }
    }
}

/// `str::split(sep)`: every piece, empty ones included.
pub open spec fn split_on(s: Seq<char>, sep: char) -> Seq<Seq<char>> {
    let (done, cur) = split_scan(s, sep);
    done.push(cur)
}

proof fn lemma_split_scan_extend(x: Seq<char>, y: Seq<char>, sep: char)
    requires
        forall|i: int| 0 <= i < y.len() ==> y[i] != sep,
    ensures
        split_scan(x + y, sep) == (split_scan(x, sep).0, split_scan(x, sep).1 + y),
    decreases y.len(),
{
    if y.len() == 0 {
        assert(x + y =~= x);
        assert(split_scan(x, sep).1 + y =~= split_scan(x, sep).1);
    } else {
        lemma_split_scan_extend(x, y.drop_last(), sep);
        assert((x + y).drop_last() =~= x + y.drop_last());
        assert((x + y).last() == y.last());
        assert(split_scan(x, sep).1 + y.drop_last() + seq![y.last()] =~= split_scan(x, sep).1 + y);
    }
}

/// Pieces with no separator in them, joined with it, split back into the same pieces.
pub proof fn lemma_split_join(parts: Seq<Seq<char>>, sep: char)
    requires
        parts.len() > 0,
        forall|k: int, i: int| 0 <= k < parts.len() && 0 <= i < parts[k].len() ==> #[trigger] parts[k][i] != sep,
    ensures
        split_on(crate::marks::join(parts, sep), sep) == parts,
    decreases parts.len(),
{
    if parts.len() == 1 {
        lemma_split_scan_extend(Seq::<char>::empty(), parts[0], sep);
        assert(Seq::<char>::empty() + parts[0] =~= parts[0]);
        assert(split_scan(Seq::<char>::empty(), sep) == (Seq::<Seq<char>>::empty(), Seq::<char>::empty()));
        assert(Seq::<char>::empty() + parts[0] =~= parts[0]);
        assert(seq![parts[0]] =~= parts);
    } else {
        let init = parts.drop_last();
        assert forall|k: int, i: int| 0 <= k < init.len() && 0 <= i < init[k].len() implies #[trigger] init[k][i] != sep by {
            assert(init[k] == parts[k]);
        }
        lemma_split_join(init, sep);
        let x = crate::marks::join(init, sep) + seq![sep];
        let last = parts.last();
        assert forall|i: int| 0 <= i < last.len() implies last[i] != sep by {
            assert(parts[parts.len() - 1][i] != sep);
        }
        lemma_split_scan_extend(x, last, sep);
        assert(x.drop_last() =~= crate::marks::join(init, sep));
        assert(crate::marks::join(parts, sep) =~= x + last);
        assert(init.push(last) =~= parts);
    }
}

pub fn split_chars(s: &Vec<char>, sep: char) -> (r: Vec<Vec<char>>)
    ensures
        r@.len() == split_on(s@, sep).len(),
        forall|i: int| 0 <= i < r@.len() ==> (#[trigger] r@[i])@ == split_on(s@, sep)[i],
{
    let mut done: Vec<Vec<char>> = Vec::new();
    let mut cur: Vec<char> = Vec::new();
    let mut i: usize = 0;
    while i < s.len()
        invariant
            i <= s.len(),
            done@.len() == split_scan(s@.subrange(0, i as int), sep).0.len(),
            forall|j: int|
                0 <= j < done@.len() ==> (#[trigger] done@[j])@ == split_scan(
                    s@.subrange(0, i as int),
                    sep,
                ).0[j],
            cur@ == split_scan(s@.subrange(0, i as int), sep).1,
        decreases s.len() - i,
    {
        assert(s@.subrange(0, i + 1).drop_last() =~= s@.subrange(0, i as int));
        if s[i] == sep {
            let finished = cur;
            done.push(finished);
            cur = Vec::new();
        } else {
            cur.push(s[i]);
        }
        i += 1;
    }
    assert(s@.subrange(0, s@.len() as int) =~= s@);
    done.push(cur);
    done
}

/// `str::split_whitespace` as a left-to-right scan: the words so far and whether
/// the last of them is still being read.
pub open spec fn words_scan(s: Seq<char>) -> (Seq<Seq<char>>, bool)
    decreases s.len(),
{
    if s.len() == 0 {
        (seq![], false)
    } else {
        let (words, open) = words_scan(s.drop_last());
        if is_space(s.last()) {
            (words, false)
        } else if open {
            (words.update(words.len() - 1, words.last().push(s.last())), true)
        } else {
            (words.push(seq![s.last()]), true)
        }
    }
}

/// `str::split_whitespace`: the maximal runs of non-whitespace characters.
pub open spec fn words(s: Seq<char>) -> Seq<Seq<char>> {
    words_scan(s).0
}

proof fn lemma_words_scan_open(s: Seq<char>)
    ensures
        words_scan(s).1 ==> words_scan(s).0.len() > 0,
    decreases s.len(),
{
    if s.len() > 0 {
        lemma_words_scan_open(s.drop_last());
    }
}

pub fn words_of(s: &Vec<char>) -> (r: Vec<Vec<char>>)
    ensures
        r@.len() == words(s@).len(),
        forall|i: int| 0 <= i < r@.len() ==> (#[trigger] r@[i])@ == words(s@)[i],
{
    let mut done: Vec<Vec<char>> = Vec::new();
    let mut cur: Vec<char> = Vec::new();
    let mut open = false;
    let mut i: usize = 0;
    while i < s.len()
        invariant
            i <= s.len(),
            open == words_scan(s@.subrange(0, i as int)).1,
            done@.len() + (if open { 1int } else { 0 }) == words_scan(
                s@.subrange(0, i as int),
            ).0.len(),
            forall|j: int|
                0 <= j < done@.len() ==> (#[trigger] done@[j])@ == words_scan(
                    s@.subrange(0, i as int),
                ).0[j],
            open ==> cur@ == words_scan(s@.subrange(0, i as int)).0.last(),
            !open ==> cur@.len() == 0,
        decreases s.len() - i,
    {
        let ghost prev = s@.subrange(0, i as int);
        assert(s@.subrange(0, i + 1).drop_last() =~= prev);
        proof {
            lemma_words_scan_open(prev);
        }
        let c = s[i];
        if space_char(c) {
            if open {
                let finished = cur;
                done.push(finished);
                cur = Vec::new();
            }
            open = false;
        } else {
            cur.push(c);
            open = true;
        }
        i += 1;
    }
    assert(s@.subrange(0, s@.len() as int) =~= s@);
    if open {
        done.push(cur);
    }
    done
}

/// A line with its `\n` terminator read: one trailing `\r` goes with it.
pub open spec fn strip_cr(line: Seq<char>) -> Seq<char> {
    if line.len() > 0 && line.last() == '\r' {
        line.drop_last()
    } else {
        line
    }
}

/// `str::lines` as a left-to-right scan: finished lines and the one being read.
pub open spec fn lines_scan(s: Seq<char>) -> (Seq<Seq<char>>, Seq<char>)
    decreases s.len(),
{
    if s.len() == 0 {
        (seq![], seq![])
    } else {
        let (done, cur) = lines_scan(s.drop_last());
        if s.last() == '\n' {
            (done.push(strip_cr(cur)), seq![])
        } else {
            (done, cur.push(s.last()))
        }
    }
}

/// `str::lines`: split at `\n` (and `\r\n`), the final terminator optional.
pub open spec fn lines(s: Seq<char>) -> Seq<Seq<char>> {
    let (done, cur) = lines_scan(s);
    if cur.len() > 0 {
        done.push(cur)
    } else {
        done
    }
}

/// A line's worth of text: no line break in it, and no carriage return at its end
/// for `lines` to take with a terminator.
pub open spec fn one_line(s: Seq<char>) -> bool {
    &&& forall|i: int| 0 <= i < s.len() ==> s[i] != '\n'
    &&& !(s.len() > 0 && s.last() == '\r')
}

/// Lines written out, each followed by `\n`.
pub open spec fn terminated(ls: Seq<Seq<char>>) -> Seq<char>
    decreases ls.len(),
{
    if ls.len() == 0 {
        seq![]
    } else {
        terminated(ls.drop_last()) + ls.last() + seq!['\n']
    }
}

proof fn lemma_lines_scan_extend(p: Seq<char>, line: Seq<char>)
    requires
        lines_scan(p).1 == Seq::<char>::empty(),
        forall|i: int| 0 <= i < line.len() ==> line[i] != '\n',
    ensures
        lines_scan(p + line) == (lines_scan(p).0, line),
    decreases line.len(),
{
    if line.len() > 0 {
        lemma_lines_scan_extend(p, line.drop_last());
        assert((p + line).drop_last() =~= p + line.drop_last());
        assert((p + line).last() == line.last());
        assert(line.drop_last().push(line.last()) =~= line);
    } else {
        assert(p + line =~= p);
    }
}

proof fn lemma_lines_scan_terminated(ls: Seq<Seq<char>>)
    requires
        forall|k: int| 0 <= k < ls.len() ==> one_line(#[trigger] ls[k]),
    ensures
        lines_scan(terminated(ls)) == (ls, Seq::<char>::empty()),
    decreases ls.len(),
{
    if ls.len() == 0 {
        assert(lines_scan(Seq::<char>::empty()) == (Seq::<Seq<char>>::empty(), Seq::<char>::empty()));
        assert(ls =~= Seq::<Seq<char>>::empty());
    } else {
        let init = ls.drop_last();
        assert forall|k: int| 0 <= k < init.len() implies one_line(#[trigger] init[k]) by {
            assert(init[k] == ls[k]);
        }
        lemma_lines_scan_terminated(init);
        let last = ls.last();
        assert(one_line(ls[ls.len() - 1]));
        lemma_lines_scan_extend(terminated(init), last);
        let x = terminated(init) + last;
        assert(terminated(ls) =~= x + seq!['\n']);
        assert((x + seq!['\n']).drop_last() =~= x);
        assert(strip_cr(last) == last);
        assert(init.push(last) =~= ls);
    }
}

/// Lines written out with a `\n` after each read back as the same lines.
pub proof fn lemma_lines_read_back(ls: Seq<Seq<char>>)
    requires
        forall|k: int| 0 <= k < ls.len() ==> one_line(#[trigger] ls[k]),
    ensures
        lines(terminated(ls)) == ls,
{
    lemma_lines_scan_terminated(ls);
}

pub fn lines_of(s: &Vec<char>) -> (r: Vec<Vec<char>>)
    ensures
        r@.len() == lines(s@).len(),
        forall|i: int| 0 <= i < r@.len() ==> (#[trigger] r@[i])@ == lines(s@)[i],
{
    let mut done: Vec<Vec<char>> = Vec::new();
    let mut cur: Vec<char> = Vec::new();
    let mut i: usize = 0;
    while i < s.len()
        invariant
            i <= s.len(),
            done@.len() == lines_scan(s@.subrange(0, i as int)).0.len(),
            forall|j: int|
                0 <= j < done@.len() ==> (#[trigger] done@[j])@ == lines_scan(
                    s@.subrange(0, i as int),
                ).0[j],
            cur@ == lines_scan(s@.subrange(0, i as int)).1,
        decreases s.len() - i,
    {
        assert(s@.subrange(0, i + 1).drop_last() =~= s@.subrange(0, i as int));
        if s[i] == '\n' {
            let mut finished = cur;
            if finished.len() > 0 && finished[finished.len() - 1] == '\r' {
                finished.pop();
            }
            done.push(finished);
            cur = Vec::new();
        } else {
            cur.push(s[i]);
        }
        i += 1;
    }
    assert(s@.subrange(0, s@.len() as int) =~= s@);
    if cur.len() > 0 {
        done.push(cur);
    }
    done
}

} // verus!
