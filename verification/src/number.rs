use vstd::prelude::*;

verus! {

/// `b` is a byte that `str::trim` removes: ASCII space, tab, line feed,
/// vertical tab, form feed or carriage return.
pub open spec fn is_trimmed_byte(b: u8) -> bool {
    b == 32 || (9 <= b && b <= 13)
}

/// `b` is an ASCII decimal digit.
pub open spec fn is_digit(b: u8) -> bool {
    48 <= b && b <= 57
}

pub open spec fn all_digits(s: Seq<u8>) -> bool {
    forall|i: int| 0 <= i < s.len() ==> is_digit(#[trigger] s[i])
}

/// `s` without its leading whitespace.
pub open spec fn trim_start(s: Seq<u8>) -> Seq<u8>
    decreases s.len(),
{
    if s.len() > 0 && is_trimmed_byte(s[0]) {
        trim_start(s.drop_first())
    } else {
        s
    }
}

/// `s` without its trailing whitespace.
pub open spec fn trim_end(s: Seq<u8>) -> Seq<u8>
    decreases s.len(),
{
    if s.len() > 0 && is_trimmed_byte(s.last()) {
        trim_end(s.drop_last())
    } else {
        s
    }
}

/// `s` without leading and trailing whitespace, as `str::trim` gives it.
pub open spec fn trim(s: Seq<u8>) -> Seq<u8> {
    trim_end(trim_start(s))
}

/// The number that the digits `s` stand for, most significant first.
pub open spec fn decimal_value(s: Seq<u8>) -> int
    decreases s.len(),
{
    if s.len() == 0 {
        0
    } else {
        decimal_value(s.drop_last()) * 10 + (s.last() - 48)
    }
}

/// What `u64::from_str` makes of the ASCII text `s`: an optional `+`, then
/// one or more decimal digits whose value fits in a `u64`.
pub open spec fn parse_u64(s: Seq<u8>) -> Option<u64> {
    let d = if s.len() > 0 && s[0] == 43 {
        s.drop_first()
    } else {
        s
    };
    if d.len() > 0 && all_digits(d) && decimal_value(d) <= u64::MAX {
        Some(decimal_value(d) as u64)
    } else {
        None
    }
}

/// The shortest decimal writing of `n`.
pub open spec fn decimal(n: nat) -> Seq<u8>
    decreases n,
{
    if n < 10 {
        seq![(48 + n) as u8]
    } else {
        decimal(n / 10) + seq![(48 + n % 10) as u8]
    }
}

pub proof fn lemma_decimal_value_prefix_le(s: Seq<u8>, k: int)
    requires
        all_digits(s),
        0 <= k <= s.len(),
    ensures
        0 <= decimal_value(s.take(k)) <= decimal_value(s),
    decreases s.len(),
{
    if s.len() > 0 {
        if k == s.len() {
            assert(s.take(k) =~= s);
            lemma_decimal_value_prefix_le(s.drop_last(), k - 1);
            assert(s.drop_last().take(k - 1) =~= s.drop_last());
        } else {
            lemma_decimal_value_prefix_le(s.drop_last(), k);
            assert(s.drop_last().take(k) =~= s.take(k));
            lemma_decimal_value_prefix_le(s.drop_last(), s.len() - 1);
            assert(s.drop_last().take(s.len() - 1) =~= s.drop_last());
        }
    }
}

/// The decimal writing of `n` is made of digits and reads back as `n`.
pub proof fn lemma_decimal(n: nat)
    ensures
        decimal(n).len() >= 1,
        all_digits(decimal(n)),
        decimal_value(decimal(n)) == n,
        decimal(n)[0] != 43,
    decreases n,
{
    if n < 10 {
        let d = decimal(n);
        assert(d.drop_last() =~= Seq::<u8>::empty());
        assert(decimal_value(d.drop_last()) == 0);
    } else {
        lemma_decimal(n / 10);
        let d = decimal(n);
        assert(d.drop_last() =~= decimal(n / 10));
        assert(n == (n / 10) * 10 + n % 10);
        assert(d.last() == (48 + n % 10) as u8);
        assert(d.last() - 48 == n % 10);
    }
}

/// The digits of `text` after an optional `+`, checked and summed; the
/// executable counterpart of `parse_u64`.
pub fn parse_u64_exec(text: &[u8], lo: usize, hi: usize) -> (r: Option<u64>)
    requires
        lo <= hi <= text@.len(),
    ensures
        r == parse_u64(text@.subrange(lo as int, hi as int)),
{
    let ghost s = text@.subrange(lo as int, hi as int);
    let mut p = lo;
    if p < hi && text[p] == 43 {
        p = p + 1;
    }
    let ghost d = text@.subrange(p as int, hi as int);
    assert(d =~= (if s.len() > 0 && s[0] == 43 { s.drop_first() } else { s }));
    if p == hi {
        return None;
    }
    let mut v: u64 = 0;
    let mut i = p;
    while i < hi
        invariant
            p <= i <= hi <= text@.len(),
            d == text@.subrange(p as int, hi as int),
            s == text@.subrange(lo as int, hi as int),
            d == (if s.len() > 0 && s[0] == 43 { s.drop_first() } else { s }),
            all_digits(d.take(i - p)),
            v == decimal_value(d.take(i - p)),
        decreases hi - i,
    {
        let b = text[i];
        assert(d[i - p] == b);
        if b < 48 || b > 57 {
            assert(!is_digit(d[i - p]));
            assert(!all_digits(d));
            return None;
        }
        assert(d.take(i - p + 1).drop_last() =~= d.take(i - p));
        assert(all_digits(d.take(i - p + 1)));
        let dig = (b - 48) as u64;
        assert(decimal_value(d.take(i - p + 1)) == v * 10 + dig);
        match v.checked_mul(10) {
            Some(v10) => match v10.checked_add(dig) {
                Some(nv) => {
                    v = nv;
                },
                None => {
                    proof {
                        if all_digits(d) {
                            lemma_decimal_value_prefix_le(d, i - p + 1);
                        }
                    }
                    return None;
                },
            },
            None => {
                proof {
                    if all_digits(d) {
                        lemma_decimal_value_prefix_le(d, i - p + 1);
                    }
                }
                return None;
            },
        }
        i = i + 1;
    }
    assert(d.take(i - p) =~= d);
    assert(d.len() > 0);
    Some(v)
}

/// Appends the decimal writing of `n` to `out`.
pub fn write_decimal(out: &mut Vec<u8>, n: u64)
    ensures
        final(out)@ == old(out)@ + decimal(n as nat),
    decreases n,
{
    if n >= 10 {
        write_decimal(out, n / 10);
    }
    out.push(48 + (n % 10) as u8);
    assert(out@ =~= old(out)@ + decimal(n as nat));
}

} // verus!
