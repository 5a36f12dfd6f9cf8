use vstd::prelude::*;

verus! {

/// Number of seconds in one unit of an interval suffix (`s`, `m`, `h`,
/// `d`, `w`), or `None` for an unknown suffix.
pub open spec fn spec_unit_seconds(unit: char) -> Option<u32> {
    if unit == 's' {
        Some(1u32)
    } else if unit == 'm' {
        Some(60u32)
    } else if unit == 'h' {
        Some(3600u32)
    } else if unit == 'd' {
        Some(86400u32)
    } else if unit == 'w' {
        Some(604800u32)
    } else {
        None
    }
}

pub fn unit_seconds(unit: char) -> (r: Option<u32>)
    ensures
        r == spec_unit_seconds(unit),
{
    match unit {
        's' => Some(1),
        'm' => Some(60),
        'h' => Some(3600),
        'd' => Some(86400),
        'w' => Some(604800),
        _ => None,
    }
}

/// `c` is a decimal digit.
pub open spec fn is_digit(c: char) -> bool {
    48 <= c as int <= 57
}

/// The numeric value of a digit character.
pub open spec fn digit_val(c: char) -> int {
    c as int - 48
}

/// Every character of `s` is a decimal digit.
pub open spec fn all_digits(s: Seq<char>) -> bool {
    forall|i: int| 0 <= i < s.len() ==> is_digit(#[trigger] s[i])
}

/// The value of a digit string read in base ten.
pub open spec fn digits_val(s: Seq<char>) -> int
    decreases s.len(),
{
    if s.len() == 0 {
        0
    } else {
        digits_val(s.drop_last()) * 10 + digit_val(s.last())
    }
}

/// What an interval string such as `5m` or `1d` denotes, in seconds: the
/// digit prefix times the unit of the final character, provided the string
/// is well-formed and the product fits.
pub open spec fn spec_ti_s(s: Seq<char>) -> Option<u32> {
    if s.len() < 2 {
        None
    } else {
        let prefix = s.drop_last();
        let unit = spec_unit_seconds(s.last());
        if unit is None || !all_digits(prefix) {
            None
        } else if digits_val(prefix) * (unit->0 as int) > u32::MAX as int {
            None
        } else {
            Some((digits_val(prefix) * (unit->0 as int)) as u32)
        }
    }
}

/// The same interval in milliseconds.
pub open spec fn spec_ti_ms(s: Seq<char>) -> Option<u64> {
    match spec_ti_s(s) {
        Some(v) => Some((1000 * v as int) as u64),
        None => None,
    }
}

proof fn lemma_digits_val_nonneg(s: Seq<char>)
    requires
        all_digits(s),
    ensures
        digits_val(s) >= 0,
    decreases s.len(),
{
    if s.len() > 0 {
        assert(s.last() == s[s.len() - 1]);
        assert forall|i: int| 0 <= i < s.drop_last().len() implies is_digit(
            #[trigger] s.drop_last()[i],
        ) by {
            assert(s.drop_last()[i] == s[i]);
        }
        lemma_digits_val_nonneg(s.drop_last());
    }
}

/// A longer digit prefix denotes at least as large a value.
proof fn lemma_digits_val_prefix_le(s: Seq<char>, i: int, j: int)
    requires
        all_digits(s),
        0 <= i <= j <= s.len(),
    ensures
        digits_val(s.take(i)) <= digits_val(s.take(j)),
    decreases j - i,
{
    if i < j {
        lemma_digits_val_prefix_le(s, i, j - 1);
        let p = s.take(j - 1);
        let q = s.take(j);
        assert(q.drop_last() =~= p);
        assert(q.last() == s[j - 1]);
        assert forall|m: int| 0 <= m < p.len() implies is_digit(#[trigger] p[m]) by {
            assert(p[m] == s[m]);
        }
        lemma_digits_val_nonneg(p);
        assert(digits_val(q) == digits_val(p) * 10 + digit_val(s[j - 1]));
    }
}

/// Parses an interval string such as `15m` into seconds.  Returns `None`
/// when the suffix is unknown, the prefix is not all digits, or the value
/// does not fit in 32 bits.
pub fn ti_s(interval: &str) -> (r: Option<u32>)
    ensures
        r == spec_ti_s(interval@),
{
    let n = interval.unicode_len();
    if n < 2 {
        return None;
    }
    let unit_char = interval.get_char(n - 1);
    assert(unit_char == interval@.last());
    let mult = match unit_seconds(unit_char) {
        Some(m) => m,
        None => {
            return None;
        },
    };
    assert(mult >= 1);
    let ghost prefix = interval@.drop_last();
    let mut acc: u32 = 0;
    let mut i: usize = 0;
    while i < n - 1
        invariant
            i <= n - 1,
            n == interval@.len(),
            2 <= n,
            mult >= 1,
            Some(mult) == spec_unit_seconds(interval@.last()),
            prefix == interval@.drop_last(),
            all_digits(interval@.take(i as int)),
            acc as int == digits_val(interval@.take(i as int)),
        decreases n - 1 - i,
    {
        let c = interval.get_char(i);
        let v = c as u32;
        let ghost pre = interval@.take(i as int);
        let ghost nxt = interval@.take(i + 1int);
        assert(nxt.drop_last() =~= pre);
        assert(nxt.last() == interval@[i as int]);
        if v < 48 || v > 57 {
            assert(!is_digit(interval@[i as int]));
            assert(!all_digits(prefix)) by {
                assert(prefix[i as int] == interval@[i as int]);
            }
            return None;
        }
        let d = v - 48;
        assert(is_digit(interval@[i as int]));
        assert forall|m: int| 0 <= m < nxt.len() implies is_digit(#[trigger] nxt[m]) by {
            if m < i {
                assert(nxt[m] == pre[m]);
            }
        }
        if acc > (u32::MAX - d) / 10 {
            // The prefix value already exceeds what fits; the full prefix
            // can only be larger, and the unit multiplier is at least one.
            proof {
                assert(10 * acc as int + d > u32::MAX as int);
                assert(digits_val(nxt) > u32::MAX as int);
                if all_digits(prefix) {
                    lemma_digits_val_prefix_le(prefix, i + 1, prefix.len() as int);
                    assert(prefix.take(i + 1int) =~= nxt) by {
                        assert forall|m: int| 0 <= m < i + 1 implies prefix.take(i + 1int)[m]
                            == nxt[m] by {
                            assert(prefix[m] == interval@[m]);
                        }
                    }
                    assert(prefix.take(prefix.len() as int) =~= prefix);
                    assert(digits_val(prefix) > u32::MAX as int);
                    lemma_digits_val_nonneg(prefix);
                    assert(digits_val(prefix) * (mult as int) >= digits_val(prefix) * 1);
                }
            }
            return None;
        }
        assert(acc as int * 10 + d <= u32::MAX as int);
        acc = acc * 10 + d;
        i += 1;
    }
    assert(interval@.take(n - 1int) =~= prefix);
    assert(mult <= 604800);
    assert((acc as int) * (mult as int) <= 0xffff_ffff * 604800int) by (nonlinear_arith)
        requires
            acc <= 0xffff_ffffu32,
            mult <= 604800u32,
    ;
    let prod = (acc as u64) * (mult as u64);
    assert(prod as int == digits_val(prefix) * (mult as int)) by {
        lemma_digits_val_nonneg(prefix);
    }
    if prod > 0xffff_ffffu64 {
        None
    } else {
        Some(prod as u32)
    }
}

/// Parses an interval string into milliseconds.
pub fn ti_ms(interval: &str) -> (r: Option<u64>)
    ensures
        r == spec_ti_ms(interval@),
{
    match ti_s(interval) {
        Some(v) => Some(1000 * (v as u64)),
        None => None,
    }
}

} // verus!
