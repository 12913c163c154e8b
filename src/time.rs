use vstd::prelude::*;

use crate::text::{chars_of, digits_u32, is_numeric, numeric, parse_u32, string_of};

verus! {

/// Minutes past midnight of an `HHMM` clock value.
pub open spec fn minutes_of(t: u32) -> int {
    (t / 100) as int * 60 + (t % 100) as int
}

/// Minutes from `first` to `second`, both written as `HHMM`.
pub fn time_between(first: u32, second: u32) -> (r: u32)
    requires
        minutes_of(first) <= minutes_of(second),
    ensures
        r as int == minutes_of(second) - minutes_of(first),
{
    let a: u32 = first / 100 * 60 + first % 100;
    let b: u32 = second / 100 * 60 + second % 100;
    b - a
}

pub open spec fn digit_char(d: int) -> char {
    if d == 0 {
        '0'
    } else if d == 1 {
        '1'
    } else if d == 2 {
        '2'
    } else if d == 3 {
        '3'
    } else if d == 4 {
        '4'
    } else if d == 5 {
        '5'
    } else if d == 6 {
        '6'
    } else if d == 7 {
        '7'
    } else if d == 8 {
        '8'
    } else {
        '9'
    }
}

/// Decimal digits of `n`, most significant first, without leading zeros.
pub open spec fn digits(n: nat) -> Seq<char>
    decreases n,
{
    if n < 10 {
        seq![digit_char(n as int)]
    } else {
        digits(n / 10) + seq![digit_char((n % 10) as int)]
    }
}

fn push_digit(d: u32, out: &mut Vec<char>)
    requires
        d < 10,
    ensures
        final(out)@ == old(out)@.push(digit_char(d as int)),
{
    let c: char = if d == 0 {
        '0'
    } else if d == 1 {
        '1'
    } else if d == 2 {
        '2'
    } else if d == 3 {
        '3'
    } else if d == 4 {
        '4'
    } else if d == 5 {
        '5'
    } else if d == 6 {
        '6'
    } else if d == 7 {
        '7'
    } else if d == 8 {
        '8'
    } else {
        '9'
    };
    out.push(c);
}

fn push_digits(n: u32, out: &mut Vec<char>)
    ensures
        final(out)@ == old(out)@ + digits(n as nat),
    decreases n,
{
    if n >= 10 {
        push_digits(n / 10, out);
    }
    push_digit(n % 10, out);
    proof {
        assert(final(out)@ =~= old(out)@ + digits(n as nat));
    }
}

/// The clock value as read in twelve-hour form: the hours past noon lose twelve
/// from 13:00 on, and the hour after midnight is read as twelve.
pub open spec fn twelve_hour(t: u32) -> nat {
    if t >= 1300 {
        (t - 1200) as nat
    } else if t < 100 {
        (t + 1200) as nat
    } else {
        t as nat
    }
}

/// "pm" from 12:00 on, "am" before.
pub open spec fn meridiem(t: u32) -> Seq<char> {
    if t >= 1200 {
        seq!['p', 'm']
    } else {
        seq!['a', 'm']
    }
}

/// `HHMM` written for people: the digits of the twelve-hour value with a colon
/// before the last two, then the meridiem (`1330` gives `1:30pm`, `0` gives
/// `12:00am`).
pub open spec fn human_time(t: u32) -> Seq<char> {
    let d = digits(twelve_hour(t));
    d.subrange(0, d.len() - 2) + seq![':'] + d.subrange(d.len() - 2, d.len() as int) + meridiem(
        t,
    )
}

proof fn lemma_digits_len(n: nat)
    ensures
        digits(n).len() >= 1,
        n >= 10 ==> digits(n).len() >= 2,
    decreases n,
{
    if n >= 10 {
        lemma_digits_len(n / 10);
    }
}

///Turns computer formatted time into human formatted time
pub fn un_military_time(time: u32) -> (r: String)
    ensures
        r@ == human_time(time),
{
    let shown: u32 = if time >= 1300 {
        time - 1200
    } else if time < 100 {
        time + 1200
    } else {
        time
    };
    let mut ds: Vec<char> = Vec::new();
    push_digits(shown, &mut ds);
    proof {
        lemma_digits_len(shown as nat);
        assert(ds@ =~= digits(twelve_hour(time)));
    }
    let cut: usize = ds.len() - 2;
    let mut out: Vec<char> = Vec::new();
    let mut i: usize = 0;
    while i < ds.len()
        invariant
            0 <= i <= ds.len(),
            cut == ds.len() - 2,
            out@ == (if i <= cut {
                ds@.subrange(0, i as int)
            } else {
                ds@.subrange(0, cut as int) + seq![':'] + ds@.subrange(cut as int, i as int)
            }),
        decreases ds.len() - i,
    {
        if i == cut {
            out.push(':');
        }
        out.push(ds[i]);
        i = i + 1;
        proof {
            if i <= cut {
                assert(out@ =~= ds@.subrange(0, i as int));
            } else {
                assert(out@ =~= ds@.subrange(0, cut as int) + seq![':'] + ds@.subrange(
                    cut as int,
                    i as int,
                ));
            }
        }
    }
    if time >= 1200 {
        out.push('p');
    } else {
        out.push('a');
    }
    out.push('m');
    proof {
        assert(out@ =~= human_time(time));
    }
    string_of(&out)
}

} // verus!

verus! {

/// The characters of `s` for which `char::is_numeric` holds, in order.
pub open spec fn numerics(s: Seq<char>) -> Seq<char>
    decreases s.len(),
{
    if s.len() == 0 {
        s
    } else if numeric(s.last()) {
        numerics(s.drop_last()).push(s.last())
    } else {
        numerics(s.drop_last())
    }
}

/// The number that the numeric characters of a clock string write, where they
/// are a decimal number that fits in a `u32`.
pub open spec fn clock_digits(s: Seq<char>) -> Option<u32> {
    digits_u32(numerics(s))
}

/// `HHMM` of a clock string such as `"1:30pm"`: afternoon values gain twelve
/// hours except from 12:00 to 12:59. A string whose numeric characters give no
/// number, with neither `p` nor `a`, or whose afternoon value would not fit in a
/// `u32`, gives zero.
pub open spec fn military_of(s: Seq<char>) -> u32 {
    match clock_digits(s) {
        None => 0,
        Some(n) => if s.contains('p') {
            if 1200 <= n <= 1259 {
                n
            } else if n + 1200 <= u32::MAX {
                (n + 1200) as u32
            } else {
                0
            }
        } else if s.contains('a') {
            n
        } else {
            0
        },
    }
}

fn has_char(cs: &Vec<char>, c: char) -> (r: bool)
    ensures
        r == cs@.contains(c),
{
    let mut i: usize = 0;
    while i < cs.len()
        invariant
            0 <= i <= cs.len(),
            forall|j: int| 0 <= j < i ==> cs@[j] != c,
        decreases cs.len() - i,
    {
        if cs[i] == c {
            return true;
        }
        i = i + 1;
    }
    false
}

///converts the given convential time in string form into military time in integer form
pub fn to_military(time: String) -> (r: u32)
    ensures
        r == military_of(time@),
{
    let cs: Vec<char> = chars_of(time.as_str());
    let mut kept: Vec<char> = Vec::new();
    let mut i: usize = 0;
    while i < cs.len()
        invariant
            0 <= i <= cs.len(),
            cs@ == time@,
            kept@ == numerics(cs@.subrange(0, i as int)),
            forall|j: int| 0 <= j < kept@.len() ==> kept@[j] != '+',
        decreases cs.len() - i,
    {
        proof {
            assert(cs@.subrange(0, i + 1).drop_last() =~= cs@.subrange(0, i as int));
        }
        if is_numeric(cs[i]) {
            kept.push(cs[i]);
        }
        i = i + 1;
    }
    proof {
        assert(cs@.subrange(0, cs@.len() as int) =~= cs@);
    }
    let digits_text: String = string_of(&kept);
    let digits_str: &str = digits_text.as_str();
    proof {
        assert(digits_str@ == kept@);
    }
    let parsed: Option<u32> = parse_u32(digits_str);
    proof {
        if kept@.len() > 0 {
            assert(kept@[0] != '+');
        }
        assert(parsed == clock_digits(time@));
    }
    let nums: u32 = match parsed {
        Some(v) => v,
        None => {
            return 0;
        },
    };
    if has_char(&cs, 'p') {
        if nums >= 1200 && nums <= 1259 {
            nums
        } else if nums <= u32::MAX - 1200 {
            nums + 1200
        } else {
            0
        }
    } else if has_char(&cs, 'a') {
        nums
    } else {
        0
    }
}

} // verus!

verus! {

/// Reads a day string such as `"MWF"` or `"TuTh"` from the left: `M`, `W` and `F`
/// give days 1, 3 and 5 at once; any other character is kept in a buffer, and a
/// buffer that reads `Tu` or `Th` gives day 2 or 4 and is emptied. Gives the days
/// read and what remains in the buffer.
pub open spec fn day_scan(cs: Seq<char>) -> (Seq<u32>, Seq<char>)
    decreases cs.len(),
{
    if cs.len() == 0 {
        (seq![], seq![])
    } else {
        let (out, buf) = day_scan(cs.drop_last());
        let c = cs.last();
        if c == 'M' {
            (out.push(1), buf)
        } else if c == 'W' {
            (out.push(3), buf)
        } else if c == 'F' {
            (out.push(5), buf)
        } else {
            let b = buf.push(c);
            if b == seq!['T', 'u'] {
                (out.push(2), seq![])
            } else if b == seq!['T', 'h'] {
                (out.push(4), seq![])
            } else {
                (out, b)
            }
        }
    }
}

/// The weekdays (Monday 1 to Friday 5) that a day string names, in its order.
pub open spec fn days_of(s: Seq<char>) -> Seq<u32> {
    day_scan(s).0
}

///converts the given days in string form into a vector of numbers representing those days
pub fn get_days(input: String) -> (r: Vec<u32>)
    ensures
        r@ == days_of(input@),
{
    let cs: Vec<char> = chars_of(input.as_str());
    let mut output: Vec<u32> = Vec::new();
    let mut buffer: Vec<char> = Vec::new();
    let mut i: usize = 0;
    while i < cs.len()
        invariant
            0 <= i <= cs.len(),
            cs@ == input@,
            day_scan(cs@.subrange(0, i as int)) == (output@, buffer@),
        decreases cs.len() - i,
    {
        proof {
            assert(cs@.subrange(0, i + 1).drop_last() =~= cs@.subrange(0, i as int));
        }
        let c: char = cs[i];
        if c == 'M' {
            output.push(1);
        } else if c == 'W' {
            output.push(3);
        } else if c == 'F' {
            output.push(5);
        } else {
            buffer.push(c);
            proof {
                if buffer@.len() == 2 && buffer@[0] == 'T' && buffer@[1] == 'u' {
                    assert(buffer@ =~= seq!['T', 'u']);
                }
                if buffer@.len() == 2 && buffer@[0] == 'T' && buffer@[1] == 'h' {
                    assert(buffer@ =~= seq!['T', 'h']);
                }
                let tu: Seq<char> = seq!['T', 'u'];
                let th: Seq<char> = seq!['T', 'h'];
                assert(tu.len() == 2 && tu[0] == 'T' && tu[1] == 'u');
                assert(th.len() == 2 && th[0] == 'T' && th[1] == 'h');
            }
            if buffer.len() == 2 && buffer[0] == 'T' && buffer[1] == 'u' {
                output.push(2);
                buffer = Vec::new();
            } else if buffer.len() == 2 && buffer[0] == 'T' && buffer[1] == 'h' {
                output.push(4);
                buffer = Vec::new();
            }
        }
        i = i + 1;
    }
    proof {
        assert(cs@.subrange(0, cs@.len() as int) =~= cs@);
    }
    output
}

} // verus!
