use vstd::prelude::*;

use crate::literal::{Literal, LitV};

verus! {

// ---------------------------------------------------------------------
// Decimal digits.
// ---------------------------------------------------------------------
/// The character for the decimal digit `d`.
pub open spec fn digit_char(d: int) -> char {
    if d == 0 {
        '0'
    } else if d == 1 {
        '1'
    } else if d == 2 {
        '2'
    } else if d == 3 {
        '3'
    } else if d == 4 {
        '4'
    } else if d == 5 {
        '5'
    } else if d == 6 {
        '6'
    } else if d == 7 {
        '7'
    } else if d == 8 {
        '8'
    } else {
        '9'
    }
}

/// Whether `c` is a decimal digit.
pub open spec fn is_digit(c: char) -> bool {
    48 <= c as u32 <= 57
}

/// The value of the decimal digit `c`.
pub open spec fn digit_val(c: char) -> int {
    c as u32 - 48
}

/// Whether every character of `s` is a decimal digit.
pub open spec fn all_digits(s: Seq<char>) -> bool {
    forall|i: int| 0 <= i < s.len() ==> is_digit(#[trigger] s[i])
}

/// The value of the digit string `s` read in base ten.
pub open spec fn digits_val(s: Seq<char>) -> int
    decreases s.len(),
{
    if s.len() == 0 {
        0
    } else {
        digits_val(s.drop_last()) * 10 + digit_val(s.last())
    }
}

/// A digit string never has a negative value.
pub proof fn lemma_digits_val_nonneg(s: Seq<char>)
    requires
        all_digits(s),
    ensures
        digits_val(s) >= 0,
    decreases s.len(),
{
    if s.len() > 0 {
        assert(all_digits(s.drop_last()));
        lemma_digits_val_nonneg(s.drop_last());
    }
}

// ---------------------------------------------------------------------
// Rendering integers as decimal text.
// ---------------------------------------------------------------------
/// The standard decimal rendering of the natural number `n`.
pub open spec fn nat_text(n: nat) -> Seq<char>
    decreases n,
{
    if n < 10 {
        seq![digit_char(n as int)]
    } else {
        nat_text(n / 10).push(digit_char((n % 10) as int))
    }
}

/// The standard decimal rendering of the integer `i`, with a leading
/// minus sign when negative.
pub open spec fn int_text(i: int) -> Seq<char> {
    if i < 0 {
        seq!['-'] + nat_text((-i) as nat)
    } else {
        nat_text(i as nat)
    }
}

/// The character for the digit `d`, executable form.
fn digit_char_exec(d: u64) -> (c: char)
    requires
        d < 10,
    ensures
        c == digit_char(d as int),
{
    if d == 0 {
        '0'
    } else if d == 1 {
        '1'
    } else if d == 2 {
        '2'
    } else if d == 3 {
        '3'
    } else if d == 4 {
        '4'
    } else if d == 5 {
        '5'
    } else if d == 6 {
        '6'
    } else if d == 7 {
        '7'
    } else if d == 8 {
        '8'
    } else {
        '9'
    }
}

/// Appends the decimal rendering of `n` to `out`.
pub fn push_u64_text(out: &mut Vec<char>, n: u64)
    ensures
        final(out)@ == old(out)@ + nat_text(n as nat),
    decreases n,
{
    if n < 10 {
        out.push(digit_char_exec(n));
        proof {
            assert(out@ =~= old(out)@ + nat_text(n as nat));
        }
    } else {
        push_u64_text(out, n / 10);
        out.push(digit_char_exec(n % 10));
        proof {
            assert(out@ =~= old(out)@ + nat_text(n as nat));
        }
    }
}

/// Appends the decimal rendering of `i` to `out`.
pub fn push_i64_text(out: &mut Vec<char>, i: i64)
    ensures
        final(out)@ == old(out)@ + int_text(i as int),
{
    if i < 0 {
        // The magnitude is computed without overflowing even at the
        // smallest representable integer.
        let mag: u64 = (-(i + 1)) as u64 + 1;
        out.push('-');
        push_u64_text(out, mag);
        proof {
            assert(mag as nat == (-(i as int)) as nat);
            assert(out@ =~= old(out)@ + int_text(i as int));
        }
    } else {
        push_u64_text(out, i as u64);
    }
}

// ---------------------------------------------------------------------
// Parsing integer tokens.
// ---------------------------------------------------------------------
/// How an integer token is read: an optional minus sign followed by at
/// least one decimal digit, whose value must be representable in a
/// 64-bit signed integer; anything else is not an integer token.
pub open spec fn spec_parse_i64(s: Seq<char>) -> Option<i64> {
    if s.len() >= 2 && s[0] == '-' && all_digits(s.skip(1)) {
        let v = digits_val(s.skip(1));
        if v <= 0x8000_0000_0000_0000 {
            Some((-v) as i64)
        } else {
            None
        }
    } else if s.len() >= 1 && all_digits(s) {
        let v = digits_val(s);
        if v <= i64::MAX {
            Some(v as i64)
        } else {
            None
        }
    } else {
        None
    }
}

/// Beyond a threshold, appending digits keeps the value beyond it.
proof fn lemma_digits_val_grows(s: Seq<char>, c: char, bound: int)
    requires
        all_digits(s),
        is_digit(c),
        digits_val(s) > bound,
        bound >= 0,
    ensures
        digits_val(s.push(c)) > bound,
{
    assert(s.push(c).drop_last() =~= s);
    assert(s.push(c).last() == c);
    lemma_digits_val_nonneg(s);
}

/// Reads the digit run `s[from..]` as a value, tracking overflow
/// beyond `u64::MAX`; returns `None` if a non-digit occurs.
fn scan_digits(s: &Vec<char>, from: usize) -> (r: Option<(u64, bool)>)
    requires
        from <= s@.len(),
    ensures
        match r {
            Some((mag, over)) => {
                &&& all_digits(s@.skip(from as int))
                &&& !over ==> mag == digits_val(s@.skip(from as int))
                &&& over ==> digits_val(s@.skip(from as int)) > u64::MAX
            },
            None => !all_digits(s@.skip(from as int)),
        },
{
    let n = s.len();
    let mut i: usize = from;
    let mut mag: u64 = 0;
    let mut over: bool = false;
    while i < n
        invariant
            from <= i <= n,
            n == s@.len(),
            all_digits(s@.subrange(from as int, i as int)),
            !over ==> mag == digits_val(s@.subrange(from as int, i as int)),
            over ==> digits_val(s@.subrange(from as int, i as int)) > u64::MAX,
        decreases n - i,
    {
        let c = s[i];
        let cu = c as u32;
        if cu < 48 || cu > 57 {
            proof {
                assert(s@.skip(from as int)[i - from] == s@[i as int]);
                assert(!all_digits(s@.skip(from as int)));
            }
            return None;
        }
        let d: u64 = (cu - 48) as u64;
        proof {
            let pre = s@.subrange(from as int, i as int);
            let ext = s@.subrange(from as int, i + 1);
            assert(ext =~= pre.push(s@[i as int]));
            assert(ext.drop_last() =~= pre);
            assert(ext.last() == s@[i as int]);
            assert(digits_val(ext) == digits_val(pre) * 10 + digit_val(s@[i as int]));
        }
        if over {
            proof {
                lemma_digits_val_grows(
                    s@.subrange(from as int, i as int),
                    s@[i as int],
                    u64::MAX as int,
                );
            }
        } else {
            let next = mag.checked_mul(10);
            match next {
                Some(m10) => {
                    match m10.checked_add(d) {
                        Some(m) => {
                            mag = m;
                        },
                        None => {
                            over = true;
                        },
                    }
                },
                None => {
                    over = true;
                },
            }
            proof {
                if over {
                    assert(digits_val(s@.subrange(from as int, i + 1)) > u64::MAX);
                }
            }
        }
        i += 1;
    }
    proof {
        assert(s@.subrange(from as int, n as int) =~= s@.skip(from as int));
    }
    Some((mag, over))
}

/// Reads `s` as an integer token; mirrors [`spec_parse_i64`].
pub fn parse_int_token(s: &Vec<char>) -> (r: Option<i64>)
    ensures
        r == spec_parse_i64(s@),
{
    let n = s.len();
    if n == 0 {
        return None;
    }
    let neg = s[0] == '-';
    let start: usize = if neg { 1 } else { 0 };
    if start >= n {
        // A bare minus sign is a word, not an integer.
        return None;
    }
    let scanned = scan_digits(s, start);
    match scanned {
        None => {
            proof {
                if !neg {
                    assert(s@.skip(0) =~= s@);
                }
            }
            None
        },
        Some((mag, over)) => {
            proof {
                if !neg {
                    assert(s@.skip(0) =~= s@);
                }
                if over {
                    lemma_digits_val_nonneg(s@.skip(start as int));
                }
            }
            if neg {
                if over || mag > 0x8000_0000_0000_0000u64 {
                    None
                } else if mag == 0x8000_0000_0000_0000u64 {
                    Some(i64::MIN)
                } else {
                    Some(-(mag as i64))
                }
            } else {
                if over || mag > i64::MAX as u64 {
                    None
                } else {
                    Some(mag as i64)
                }
            }
        },
    }
}

// ---------------------------------------------------------------------
// Rendering literal values.
// ---------------------------------------------------------------------
/// The display text of a literal: integers in decimal, strings
/// verbatim, pointers as `Ptr(address, offset)`, arrays as
/// `Array(size/capacity)`, and `Unknown` as nothing.
pub open spec fn lit_text(l: LitV) -> Seq<char> {
    match l {
        LitV::Int(i) => int_text(i as int),
        LitV::Str(s) => s,
        LitV::Ptr(p) => seq!['P', 't', 'r', '('] + nat_text(p.address as nat) + seq![',', ' ']
            + nat_text(p.offset as nat) + seq![')'],
        LitV::Arr(a) => seq!['A', 'r', 'r', 'a', 'y', '('] + nat_text(a.size) + seq!['/']
            + nat_text(a.cap) + seq![')'],
        LitV::Unknown => Seq::empty(),
    }
}

/// Appends the display text of `l` to `out`.
pub fn push_lit_text(out: &mut Vec<char>, l: &Literal)
    ensures
        final(out)@ == old(out)@ + lit_text(l@),
{
    match l {
        Literal::Integer(i) => {
            push_i64_text(out, *i);
        },
        Literal::String(s) => {
            push_str_chars(out, s.as_str());
        },
        Literal::Pointer(p) => {
            out.push('P');
            out.push('t');
            out.push('r');
            out.push('(');
            push_u64_text(out, p.address as u64);
            out.push(',');
            out.push(' ');
            push_u64_text(out, p.offset as u64);
            out.push(')');
            proof {
                assert(final(out)@ =~= old(out)@ + lit_text(l@));
            }
        },
        Literal::Array(a) => {
            out.push('A');
            out.push('r');
            out.push('r');
            out.push('a');
            out.push('y');
            out.push('(');
            push_u64_text(out, a.size() as u64);
            out.push('/');
            push_u64_text(out, a.capacity() as u64);
            out.push(')');
            proof {
                assert(final(out)@ =~= old(out)@ + lit_text(l@));
            }
        },
        Literal::Unknown => {
            proof {
                assert(final(out)@ =~= old(out)@ + lit_text(l@));
            }
        },
    }
}

/// Appends every character of `s` to `out`.
pub fn push_str_chars(out: &mut Vec<char>, s: &str)
    ensures
        final(out)@ == old(out)@ + s@,
{
    let n = s.unicode_len();
    let mut i: usize = 0;
    while i < n
        invariant
            i <= n,
            n == s@.len(),
            out@ == old(out)@ + s@.subrange(0, i as int),
        decreases n - i,
    {
        let c = s.get_char(i);
        out.push(c);
        proof {
            assert(old(out)@ + s@.subrange(0, i + 1) =~= (old(out)@ + s@.subrange(
                0,
                i as int,
            )).push(s@[i as int]));
        }
        i += 1;
    }
    proof {
        assert(s@.subrange(0, n as int) =~= s@);
    }
}

} // verus!
