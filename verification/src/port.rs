//! Port validation for the connection acceptor.  A port arrives as text and
//! must denote a 16-bit value in [1, 65535] before any bind is attempted;
//! anything else is rejected up front.
use vstd::prelude::*;

verus! {

/// An ASCII decimal digit.
pub open spec fn is_digit(b: u8) -> bool {
    48 <= b <= 57
}

pub open spec fn all_digits(s: Seq<u8>) -> bool {
    forall|i: int| 0 <= i < s.len() ==> is_digit(#[trigger] s[i])
}

/// The number a digit string denotes.
pub open spec fn digits_val(s: Seq<u8>) -> int
    decreases s.len(),
{
    if s.len() == 0 {
        0
    } else {
        digits_val(s.drop_last()) * 10 + (s.last() - 48)
    }
}

/// Text that names a usable port: non-empty decimal digits denoting a value
/// in [1, 65535].
pub open spec fn valid_port_text(s: Seq<u8>) -> bool {
    s.len() > 0 && all_digits(s) && 1 <= digits_val(s) <= 65535
}

pub open spec fn spec_parse_port(s: Seq<u8>) -> Option<u16> {
    if valid_port_text(s) {
        Some(digits_val(s) as u16)
    } else {
        None
    }
}

proof fn lemma_digits_val_nonneg(s: Seq<u8>)
    requires
        all_digits(s),
    ensures
        digits_val(s) >= 0,
    decreases s.len(),
{
    if s.len() > 0 {
        assert(forall|i: int|
            0 <= i < s.drop_last().len() ==> #[trigger] s.drop_last()[i] == s[i]);
        lemma_digits_val_nonneg(s.drop_last());
    }
}

/// Reading further digits never shrinks the value already read.
proof fn lemma_digits_val_prefix_le(s: Seq<u8>, i: int)
    requires
        all_digits(s),
        0 <= i <= s.len(),
    ensures
        digits_val(s.subrange(0, i)) <= digits_val(s),
    decreases s.len() - i,
{
    if i == s.len() {
        assert(s.subrange(0, i) =~= s);
    } else {
        let a = s.subrange(0, i);
        let b = s.subrange(0, i + 1);
        assert(b.drop_last() =~= a);
        assert(forall|j: int| 0 <= j < a.len() ==> #[trigger] a[j] == s[j]);
        lemma_digits_val_nonneg(a);
        assert(digits_val(b) == digits_val(a) * 10 + (s[i] - 48));
        assert(digits_val(a) * 10 >= digits_val(a)) by (nonlinear_arith)
            requires
                digits_val(a) >= 0,
        ;
        lemma_digits_val_prefix_le(s, i + 1);
    }
}

/// Read a port from decimal text.  `Some` exactly on text that names a port
/// in [1, 65535]; empty text, any non-digit, zero, and anything over 65535
/// give `None`.
pub fn parse_port(text: &[u8]) -> (r: Option<u16>)
    ensures
        r == spec_parse_port(text@),
{
    let n = text.len();
    if n == 0 {
        return None;
    }
    let mut val: u32 = 0;
    let mut i: usize = 0;
    while i < n
        invariant
            0 <= i <= n,
            n == text@.len(),
            forall|j: int| 0 <= j < i ==> is_digit(#[trigger] text@[j]),
            val == digits_val(text@.subrange(0, i as int)),
            val <= 65535,
        decreases n - i,
    {
        let b = text[i];
        if !(48 <= b && b <= 57) {
            proof {
                assert(!all_digits(text@));
            }
            return None;
        }
        proof {
            let a = text@.subrange(0, i as int);
            let c = text@.subrange(0, i as int + 1);
            assert(c.drop_last() =~= a);
        }
        val = val * 10 + ((b - 48) as u32);
        i = i + 1;
        if val > 65535 {
            proof {
                if all_digits(text@) {
                    lemma_digits_val_prefix_le(text@, i as int);
                }
            }
            return None;
        }
    }
    proof {
        assert(text@.subrange(0, n as int) =~= text@);
    }
    if val == 0 {
        None
    } else {
        Some(val as u16)
    }
}

/// The decimal text of `n`, most significant digit first.
pub open spec fn decimal_of(n: int) -> Seq<u8>
    decreases n,
{
    if n <= 0 {
        Seq::empty()
    } else {
        decimal_of(n / 10).push((48 + n % 10) as u8)
    }
}

proof fn lemma_decimal_of_reads_back(n: int)
    requires
        n >= 1,
    ensures
        decimal_of(n).len() > 0,
        all_digits(decimal_of(n)),
        digits_val(decimal_of(n)) == n,
    decreases n,
{
    reveal_with_fuel(decimal_of, 2);
    reveal_with_fuel(digits_val, 2);
    let s = decimal_of(n);
    assert(s == decimal_of(n / 10).push((48 + n % 10) as u8));
    assert(s.drop_last() =~= decimal_of(n / 10));
    assert(s.last() == (48 + n % 10) as u8);
    if n / 10 >= 1 {
        lemma_decimal_of_reads_back(n / 10);
        assert(all_digits(s)) by {
            let t = decimal_of(n / 10);
            assert(forall|i: int| 0 <= i < t.len() ==> s[i] == t[i]);
        }
    } else {
        assert(decimal_of(n / 10) =~= Seq::<u8>::empty());
        assert(s.len() == 1);
    }
    assert(digits_val(s) == (n / 10) * 10 + n % 10);
}

/// Every port in [1, 65535], written as decimal text, is accepted and read
/// back as itself; rejection is reserved for text outside that range.
pub proof fn lemma_port_text_round_trip(n: u16)
    requires
        n >= 1,
    ensures
        spec_parse_port(decimal_of(n as int)) == Some(n),
{
    lemma_decimal_of_reads_back(n as int);
}

} // verus!
