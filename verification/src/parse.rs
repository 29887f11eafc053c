//! Decimal PIDs as the kernel and D-Bus hand them over, and the parent PID
//! line of a `/proc/<pid>/status` file.

use crate::text::chars_of;
use vstd::prelude::*;

verus! {

/// `char::is_whitespace`: the Unicode `White_Space` property.
pub open spec fn is_white_space(c: char) -> bool {
    let n = c as u32;
    ||| 0x09 <= n <= 0x0d
    ||| n == 0x20
    ||| n == 0x85
    ||| n == 0xa0
    ||| n == 0x1680
    ||| 0x2000 <= n <= 0x200a
    ||| n == 0x2028
    ||| n == 0x2029
    ||| n == 0x202f
    ||| n == 0x205f
    ||| n == 0x3000
}

fn white_space(c: char) -> (b: bool)
    ensures
        b == is_white_space(c),
{
    let n = c as u32;
    (0x09 <= n && n <= 0x0d) || n == 0x20 || n == 0x85 || n == 0xa0 || n == 0x1680 || (0x2000
        <= n && n <= 0x200a) || n == 0x2028 || n == 0x2029 || n == 0x202f || n == 0x205f || n
        == 0x3000
}

/// `s` without leading white space.
pub open spec fn trim_start(s: Seq<char>) -> Seq<char>
    decreases s.len(),
{
    if s.len() > 0 && is_white_space(s[0]) {
        trim_start(s.drop_first())
    } else {
        s
    }
}

/// `s` without trailing white space.
pub open spec fn trim_end(s: Seq<char>) -> Seq<char>
    decreases s.len(),
{
    if s.len() > 0 && is_white_space(s.last()) {
        trim_end(s.drop_last())
    } else {
        s
    }
}

/// `str::trim`: `s` without leading and trailing white space.
pub open spec fn trim(s: Seq<char>) -> Seq<char> {
    trim_end(trim_start(s))
}

pub open spec fn is_digit(c: char) -> bool {
    '0' <= c <= '9'
}

/// The number written by the decimal digits `s`.
pub open spec fn digits_value(s: Seq<char>) -> int
    decreases s.len(),
{
    if s.len() == 0 {
        0
    } else {
        digits_value(s.drop_last()) * 10 + (s.last() as int - '0' as int)
    }
}

pub open spec fn all_digits(s: Seq<char>) -> bool {
    forall|i: int| 0 <= i < s.len() ==> is_digit(#[trigger] s[i])
}

/// `str::parse::<u32>`: an optional `+`, then at least one decimal digit and
/// nothing else, for a value that fits in a `u32`.
pub open spec fn decimal_u32(s: Seq<char>) -> Option<u32> {
    let digits = if s.len() > 0 && s[0] == '+' {
        s.drop_first()
    } else {
        s
    };
    if digits.len() > 0 && all_digits(digits) && digits_value(digits) <= u32::MAX {
        Some(digits_value(digits) as u32)
    } else {
        None
    }
}

proof fn lemma_digits_value_nonneg(s: Seq<char>)
    requires
        all_digits(s),
    ensures
        digits_value(s) >= 0,
    decreases s.len(),
{
    if s.len() > 0 {
        lemma_digits_value_nonneg(s.drop_last());
        assert(is_digit(s[s.len() - 1]));
    }
}

/// A prefix of a digit string never writes a larger number.
proof fn lemma_prefix_value_le(s: Seq<char>, k: int)
    requires
        all_digits(s),
        0 <= k <= s.len(),
    ensures
        digits_value(s.subrange(0, k)) <= digits_value(s),
    decreases s.len(),
{
    if k < s.len() {
        lemma_prefix_value_le(s.drop_last(), k);
        assert(s.drop_last().subrange(0, k) == s.subrange(0, k));
        lemma_digits_value_nonneg(s.drop_last());
        assert(is_digit(s[s.len() - 1]));
    } else {
        assert(s.subrange(0, k) == s);
    }
}

/// Parse `chars[start..end]` as `str::parse::<u32>` does.
fn parse_u32_range(chars: &Vec<char>, start: usize, end: usize) -> (r: Option<u32>)
    requires
        start <= end <= chars@.len(),
    ensures
        r == decimal_u32(chars@.subrange(start as int, end as int)),
{
    let ghost s = chars@.subrange(start as int, end as int);
    let mut i = start;
    if i < end && chars[i] == '+' {
        i = i + 1;
    }
    let ghost digits = chars@.subrange(i as int, end as int);
    proof {
        if s.len() > 0 && s[0] == '+' {
            assert(digits == s.drop_first());
        } else {
            assert(digits == s);
        }
    }
    if i == end {
        return None;
    }
    proof {
        assert(decimal_u32(s) == (if all_digits(digits) && digits_value(digits) <= u32::MAX {
            Some(digits_value(digits) as u32)
        } else {
            None::<u32>
        }));
    }
    let first = i;
    let mut value: u32 = 0;
    while i < end
        invariant
            first <= i <= end <= chars@.len(),
            digits == chars@.subrange(first as int, end as int),
            s == chars@.subrange(start as int, end as int),
            decimal_u32(s) == (if all_digits(digits) && digits_value(digits) <= u32::MAX {
                Some(digits_value(digits) as u32)
            } else {
                None::<u32>
            }),
            all_digits(chars@.subrange(first as int, i as int)),
            value as int == digits_value(chars@.subrange(first as int, i as int)),
        decreases end - i,
    {
        let c = chars[i];
        let ghost done = chars@.subrange(first as int, i as int);
        let ghost next = chars@.subrange(first as int, i + 1);
        proof {
            assert(next.drop_last() == done);
            assert(next.last() == c);
            assert(digits[i - first] == c);
        }
        if !('0' <= c && c <= '9') {
            return None;
        }
        let d = (c as u32) - ('0' as u32);
        proof {
            assert forall|k: int| 0 <= k < next.len() implies is_digit(#[trigger] next[k]) by {
                if k < done.len() {
                    assert(next[k] == done[k]);
                }
            }
        }
        match value.checked_mul(10) {
            Some(tens) => match tens.checked_add(d) {
                Some(v) => {
                    value = v;
                },
                None => {
                    proof {
                        if all_digits(digits) {
                            assert(next == digits.subrange(0, i + 1 - first));
                            lemma_prefix_value_le(digits, i + 1 - first);
                        }
                    }
                    return None;
                },
            },
            None => {
                proof {
                    lemma_digits_value_nonneg(done);
                    if all_digits(digits) {
                        assert(next == digits.subrange(0, i + 1 - first));
                        lemma_prefix_value_le(digits, i + 1 - first);
                    }
                }
                return None;
            },
        }
        i = i + 1;
    }
    proof {
        assert(chars@.subrange(first as int, i as int) == digits);
    }
    Some(value)
}

/// `str::parse::<u32>`, as used for PIDs read from `/proc` and from D-Bus.
pub fn parse_u32(s: &str) -> (r: Option<u32>)
    ensures
        r == decimal_u32(s@),
{
    let chars = chars_of(s);
    proof {
        assert(chars@.subrange(0, chars@.len() as int) == s@);
    }
    parse_u32_range(&chars, 0, chars.len())
}

/// Bounds `(a, b)` with `chars[a..b]` equal to the trimmed `chars[start..end]`.
fn trim_bounds(chars: &Vec<char>, start: usize, end: usize) -> (r: (usize, usize))
    requires
        start <= end <= chars@.len(),
    ensures
        start <= r.0 <= r.1 <= end,
        chars@.subrange(r.0 as int, r.1 as int) == trim(chars@.subrange(start as int, end as int)),
{
    let mut a = start;
    while a < end && white_space(chars[a])
        invariant
            start <= a <= end <= chars@.len(),
            trim_start(chars@.subrange(start as int, end as int)) == trim_start(
                chars@.subrange(a as int, end as int),
            ),
        decreases end - a,
    {
        proof {
            assert(chars@.subrange(a as int, end as int).drop_first() == chars@.subrange(
                a + 1,
                end as int,
            ));
        }
        a = a + 1;
    }
    let ghost front = chars@.subrange(a as int, end as int);
    proof {
        if a < end {
            assert(front[0] == chars@[a as int]);
        }
        assert(trim_start(front) == front);
    }
    let mut b = end;
    while b > a && white_space(chars[b - 1])
        invariant
            start <= a <= b <= end <= chars@.len(),
            front == chars@.subrange(a as int, end as int),
            trim_end(front) == trim_end(chars@.subrange(a as int, b as int)),
        decreases b - a,
    {
        proof {
            assert(chars@.subrange(a as int, b as int).drop_last() == chars@.subrange(
                a as int,
                b - 1,
            ));
        }
        b = b - 1;
    }
    proof {
        let back = chars@.subrange(a as int, b as int);
        if b > a {
            assert(back.last() == chars@[b - 1]);
        }
        assert(trim_end(back) == back);
    }
    (a, b)
}

/// Line `i` of `t` starts at index `i`.
pub open spec fn is_line_start(t: Seq<char>, i: int) -> bool {
    i == 0 || (0 < i <= t.len() && t[i - 1] == '\n')
}

/// `t` holds `key` from index `i`.
pub open spec fn has_key_at(t: Seq<char>, i: int, key: Seq<char>) -> bool {
    0 <= i && i + key.len() <= t.len() && t.subrange(i, i + key.len()) == key
}

/// The index of the first newline at or after `i`, or the length of `t`.
pub open spec fn line_end(t: Seq<char>, i: int) -> int
    decreases t.len() - i,
{
    if i < 0 || i >= t.len() {
        t.len() as int
    } else if t[i] == '\n' {
        i
    } else {
        line_end(t, i + 1)
    }
}

/// The field name that introduces the parent PID in `/proc/<pid>/status`.
pub open spec fn ppid_key() -> Seq<char> {
    seq!['P', 'P', 'i', 'd', ':']
}

/// Line `i` is the first line of `t` that starts with `key`.
pub open spec fn is_first_key_line(t: Seq<char>, key: Seq<char>, i: int) -> bool {
    &&& is_line_start(t, i)
    &&& has_key_at(t, i, key)
    &&& forall|j: int| 0 <= j < i && #[trigger] is_line_start(t, j) ==> !has_key_at(t, j, key)
}

/// The parent PID recorded in the text of a `/proc/<pid>/status` file: the
/// first line that starts with `PPid:`, its rest trimmed and read as a `u32`.
pub open spec fn status_ppid(t: Seq<char>) -> Option<u32> {
    if exists|i: int| is_first_key_line(t, ppid_key(), i) {
        let i = choose|i: int| is_first_key_line(t, ppid_key(), i);
        decimal_u32(trim(t.subrange(i + 5, line_end(t, i + 5))))
    } else {
        None
    }
}

/// The index of the first newline at or after `i`, or the length.
fn find_line_end(chars: &Vec<char>, i: usize) -> (e: usize)
    requires
        i <= chars@.len(),
    ensures
        e as int == line_end(chars@, i as int),
        i <= e <= chars@.len(),
        forall|k: int| i <= k < e ==> chars@[k] != '\n',
        e < chars@.len() ==> chars@[e as int] == '\n',
{
    let mut e = i;
    while e < chars.len() && chars[e] != '\n'
        invariant
            i <= e <= chars@.len(),
            line_end(chars@, i as int) == line_end(chars@, e as int),
            forall|k: int| i <= k < e ==> chars@[k] != '\n',
        decreases chars@.len() - e,
    {
        e = e + 1;
    }
    e
}

fn ppid_key_at(chars: &Vec<char>, i: usize) -> (b: bool)
    requires
        i <= chars@.len(),
    ensures
        b == has_key_at(chars@, i as int, ppid_key()),
{
    if chars.len() - i < 5 {
        return false;
    }
    let b = chars[i] == 'P' && chars[i + 1] == 'P' && chars[i + 2] == 'i' && chars[i + 3] == 'd'
        && chars[i + 4] == ':';
    proof {
        let sub = chars@.subrange(i as int, i + 5);
        if b {
            assert(sub == ppid_key());
        } else {
            assert(sub != ppid_key()) by {
                if sub == ppid_key() {
                    assert(sub[0] == 'P' && sub[1] == 'P' && sub[2] == 'i' && sub[3] == 'd' && sub[4] == ':');
                }
            }
        }
    }
    b
}

/// The parent PID in the text of a `/proc/<pid>/status` file, if its first
/// `PPid:` line holds a decimal `u32` (surrounding white space aside).
pub fn parse_status_ppid(status: &str) -> (r: Option<u32>)
    ensures
        r == status_ppid(status@),
{
    let chars = chars_of(status);
    let ghost t = chars@;
    let mut i: usize = 0;
    loop
        invariant
            t == chars@,
            t == status@,
            i <= t.len(),
            is_line_start(t, i as int),
            forall|j: int| 0 <= j < i && #[trigger] is_line_start(t, j) ==> !has_key_at(t, j, ppid_key()),
        decreases t.len() - i,
    {
        if ppid_key_at(&chars, i) {
            let n = chars.len();
            proof {
                assert(ppid_key().len() == 5);
                assert(i + 5 <= n);
            }
            let e = find_line_end(&chars, i + 5);
            let (a, b) = trim_bounds(&chars, i + 5, e);
            proof {
                assert(is_first_key_line(t, ppid_key(), i as int));
                let w = choose|w: int| is_first_key_line(t, ppid_key(), w);
                if w < i {
                    assert(is_line_start(t, w));
                } else if w > i {
                    assert(is_line_start(t, i as int));
                }
                assert(w == i);
            }
            return parse_u32_range(&chars, a, b);
        }
        let e = find_line_end(&chars, i);
        proof {
            assert forall|j: int| 0 <= j < e + 1 && #[trigger] is_line_start(t, j) implies !has_key_at(t, j, ppid_key()) by {
                if j > i && j <= e {
                    assert(t[j - 1] != '\n');
                }
            }
        }
        if e == chars.len() {
            proof {
                assert forall|w: int| !is_first_key_line(t, ppid_key(), w) by {
                    if is_first_key_line(t, ppid_key(), w) {
                        if w > i && w <= e {
                            assert(t[w - 1] != '\n');
                        }
                        assert(w + 5 <= t.len());
                    }
                }
            }
            return None;
        }
        i = e + 1;
    }
}

/// The PID that the KWin bridge reports over D-Bus, read as `str::parse::<u32>`
/// does; text that is no `u32` means no focused window (PID 0).
pub fn active_pid_from_text(pid: &str) -> (r: u32)
    ensures
        r == match decimal_u32(pid@) {
            Some(v) => v,
            None => 0,
        },
{
    match parse_u32(pid) {
        Some(v) => v,
        None => 0,
    }
}

} // verus!
