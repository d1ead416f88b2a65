//! The house duration format, `{h}h {m}m`: whole hours, then the minutes left
//! over, both truncated toward zero.

use vstd::prelude::*;
use crate::completions::char_pos;
use crate::text::{all_digits, chars_of, digit_char, int_text, is_digit, parse_i64, parsed_i64, push_i64, push_str, string_of};

verus! {

/// Division truncating toward zero, as Rust's `/` on integers does.
pub open spec fn quot(a: int, b: int) -> int {
    if a >= 0 {
        a / b
    } else {
        -((-a) / b)
    }
}

/// The remainder that goes with [`quot`], as Rust's `%` on integers computes it.
pub open spec fn rem(a: int, b: int) -> int {
    a - quot(a, b) * b
}

/// `{h}h {m}m` for a span of seconds.
pub open spec fn hm_text(seconds: int) -> Seq<char> {
    int_text(quot(seconds, 3600)) + "h "@ + int_text(rem(quot(seconds, 60), 60)) + "m"@
}

proof fn lemma_split_hours(s: int)
    requires
        s >= 0,
    ensures
        quot(s, 3600) == s / 3600,
        rem(quot(s, 60), 60) == (s % 3600) / 60,
        0 <= (s % 3600) / 60 < 60,
        (s / 3600) * 3600 + ((s % 3600) / 60) * 60 <= s < (s / 3600) * 3600 + ((s % 3600) / 60) * 60 + 60,
{
    let h = s / 3600;
    let r = s % 3600;
    let m = s / 60;
    vstd::arithmetic::div_mod::lemma_fundamental_div_mod(s, 3600);
    vstd::arithmetic::div_mod::lemma_fundamental_div_mod(s, 60);
    vstd::arithmetic::div_mod::lemma_fundamental_div_mod(r, 60);
    vstd::arithmetic::div_mod::lemma_fundamental_div_mod(m, 60);
    vstd::arithmetic::div_mod::lemma_div_denominator(s, 60, 60);
    assert(m / 60 == h);
    assert(m >= 0) by {
        vstd::arithmetic::div_mod::lemma_div_pos_is_pos(s, 60);
    }
    assert(r / 60 == m - 60 * h) by (nonlinear_arith)
        requires
            s == 3600 * h + r,
            0 <= r < 3600,
            s == 60 * m + s % 60,
            0 <= s % 60 < 60,
            r == 60 * (r / 60) + r % 60,
            0 <= r % 60 < 60,
    ;
    assert(rem(m, 60) == m - h * 60);
}

/// `{h}h {m}m` names a span of seconds by its whole hours and the whole minutes
/// left over: the hours and minutes it writes are the largest that fit, the
/// minutes under sixty; a negative span reads as the same figures negated.
pub proof fn lemma_hours_then_minutes(seconds: int)
    ensures
        seconds >= 0 ==> {
            let h = seconds / 3600;
            let m = (seconds % 3600) / 60;
            &&& 0 <= m < 60
            &&& h * 3600 + m * 60 <= seconds < h * 3600 + m * 60 + 60
            &&& hm_text(seconds) == int_text(h) + "h "@ + int_text(m) + "m"@
        },
        seconds < 0 ==> hm_text(seconds) == int_text(-((-seconds) / 3600)) + "h "@ + int_text(-(((-seconds) % 3600) / 60))
            + "m"@,
{
    if seconds >= 0 {
        lemma_split_hours(seconds);
    } else {
        let s = -seconds;
        lemma_split_hours(s);
        assert(quot(seconds, 3600) == -(s / 3600));
        assert(quot(seconds, 60) == -(s / 60));
        assert(rem(quot(seconds, 60), 60) == -rem(quot(s, 60), 60)) by {
            vstd::arithmetic::div_mod::lemma_div_pos_is_pos(s, 60);
        }
    }
}

/// A span of seconds in the house format: `2h 6m`, `0h 15m`.
pub fn format(seconds: i64) -> (r: String)
    ensures
        r@ == hm_text(seconds as int),
{
    let hours = seconds / 3600;
    let minutes = seconds / 60;
    let left = minutes - (minutes / 60) * 60;
    let mut out: Vec<char> = Vec::new();
    push_i64(&mut out, hours);
    push_str(&mut out, "h ");
    push_i64(&mut out, left);
    push_str(&mut out, "m");
    proof {
        reveal_strlit("h ");
        reveal_strlit("m");
    }
    string_of(&out)
}

/// A digit run's value when it is one and fits an `i64`.
pub open spec fn run_value(s: Seq<char>) -> Option<int> {
    if all_digits(s) {
        match parsed_i64(s) {
            Some(v) => Some(v as int),
            None => None,
        }
    } else {
        None
    }
}

/// What a duration argument reads as, in seconds: `2h`, `45m`, `1h30m`, or a bare
/// number of minutes; anything else, or more seconds than an `i64` holds, is none.
pub open spec fn duration_spec(s: Seq<char>) -> Option<int> {
    let v: Option<int> = if all_digits(s) {
        match run_value(s) {
            Some(m) => Some(m * 60),
            None => None,
        }
    } else if s.len() >= 2 && s.last() == 'h' {
        match run_value(s.drop_last()) {
            Some(h) => Some(h * 3600),
            None => None,
        }
    } else if s.len() >= 2 && s.last() == 'm' {
        let body = s.drop_last();
        if all_digits(body) {
            match run_value(body) {
                Some(m) => Some(m * 60),
                None => None,
            }
        } else {
            match char_pos(body, 'h') {
                Some(i) => match (run_value(body.subrange(0, i)), run_value(body.subrange(i + 1, body.len() as int))) {
                    (Some(h), Some(m)) => Some(h * 3600 + m * 60),
                    _ => None,
                },
                None => None,
            }
        }
    } else {
        None
    };
    match v {
        Some(x) => if x <= i64::MAX {
            Some(x)
        } else {
            None
        },
        None => None,
    }
}

fn run_exec(s: &Vec<char>) -> (r: Option<i64>)
    ensures
        match r {
            Some(v) => run_value(s@) == Some(v as int),
            None => run_value(s@) is None,
        },
{
    let mut i: usize = 0;
    while i < s.len()
        invariant
            i <= s.len(),
            forall|j: int| 0 <= j < i ==> is_digit(#[trigger] s@[j]),
        decreases s.len() - i,
    {
        if !digit_char(s[i]) {
            return None;
        }
        i += 1;
    }
    if s.len() == 0 {
        return None;
    }
    parse_i64(s)
}

fn part(s: &Vec<char>, from: usize, to: usize) -> (r: Vec<char>)
    requires
        from <= to <= s.len(),
    ensures
        r@ == s@.subrange(from as int, to as int),
{
    let mut out: Vec<char> = Vec::new();
    let mut i = from;
    while i < to
        invariant
            from <= i <= to,
            to <= s.len(),
            out@ == s@.subrange(from as int, i as int),
        decreases to - i,
    {
        out.push(s[i]);
        i += 1;
        assert(out@ =~= s@.subrange(from as int, i as int));
    }
    out
}

fn scale(v: i64, k: i64) -> (r: Option<i64>)
    requires
        v >= 0,
        k > 0,
    ensures
        match r {
            Some(x) => x == v * k,
            None => v * k > i64::MAX,
        },
{
    v.checked_mul(k)
}

/// Parse a duration argument into seconds: `2h`, `45m`, `1h30m`, or a bare
/// number of minutes. Anything else is `None`, never a silent zero.
pub fn parse(text: &str) -> (r: Option<i64>)
    ensures
        match r {
            Some(x) => duration_spec(text@) == Some(x as int),
            None => duration_spec(text@) is None,
        },
{
    let s = chars_of(text);
    let n = s.len();
    if let Some(m) = run_exec(&s) {
        proof {
            assert(all_digits(s@));
        }
        return scale(m, 60);
    }
    if n < 2 {
        return None;
    }
    let body = part(&s, 0, n - 1);
    assert(body@ =~= s@.drop_last());
    if s[n - 1] == 'h' {
        return match run_exec(&body) {
            Some(h) => scale(h, 3600),
            None => None,
        };
    }
    if s[n - 1] != 'm' {
        return None;
    }
    if let Some(m) = run_exec(&body) {
        return scale(m, 60);
    }
    let bn = body.len();
    let i = match crate::completions::find_char_pub(&body, 'h') {
        Some(i) => i,
        None => {
            return None;
        },
    };
    assert(!all_digits(body@)) by {
        crate::completions::lemma_char_pos_found(body@, 'h');
        assert(body@[i as int] == 'h');
    }
    let hs = part(&body, 0, i);
    let ms = part(&body, i + 1, bn);
    let h = match run_exec(&hs) {
        Some(h) => h,
        None => {
            return None;
        },
    };
    let m = match run_exec(&ms) {
        Some(m) => m,
        None => {
            return None;
        },
    };
    let hsec = match scale(h, 3600) {
        Some(x) => x,
        None => {
            return None;
        },
    };
    let msec = match scale(m, 60) {
        Some(x) => x,
        None => {
            return None;
        },
    };
    hsec.checked_add(msec)
}

} // verus!
