//! Decimal rendering of counts for diff hunk headers.
use vstd::prelude::*;

verus! {

/// The ASCII decimal digits of `n`, most significant first, without leading zeros.
pub open spec fn decimal(n: nat) -> Seq<u8>
    decreases n,
{
    if n < 10 {
        seq![(48 + n) as u8]
    } else {
        decimal(n / 10) + seq![(48 + n % 10) as u8]
    }
}

/// Writes `n` in decimal.
pub fn usize_decimal(n: usize) -> (r: Vec<u8>)
    ensures
        r@ == decimal(n as nat),
    decreases n,
{
    if n < 10 {
        let r = vec![(48 + n) as u8];
        assert(r@ =~= decimal(n as nat));
        r
    } else {
        let mut r = usize_decimal(n / 10);
        r.push((48 + n % 10) as u8);
        r
    }
}

/// The number that a string of ASCII decimal digits denotes, most significant
/// digit first: each further digit multiplies what came before by ten and adds
/// itself.
pub open spec fn digits_value(s: Seq<u8>) -> int
    decreases s.len(),
{
    if s.len() == 0 {
        0
    } else {
        10 * digits_value(s.drop_last()) + (s.last() - 48)
    }
}

/// `decimal(n)` is the ordinary base-10 numeral of `n`: a non-empty string of
/// ASCII digits, with no leading zero unless `n` is zero, that reads back as `n`.
pub proof fn law_decimal_numeral(n: nat)
    ensures
        decimal(n).len() > 0,
        forall|i: int| 0 <= i < decimal(n).len() ==> 48 <= #[trigger] decimal(n)[i] <= 57,
        decimal(n)[0] != 48 || n == 0,
        digits_value(decimal(n)) == n,
    decreases n,
{
    if n < 10 {
        let d = decimal(n);
        assert(d.drop_last() =~= Seq::<u8>::empty());
        assert(digits_value(d.drop_last()) == 0);
        assert(d.last() == (48 + n) as u8);
        assert(digits_value(d) == n);
    } else {
        law_decimal_numeral(n / 10);
        let d = decimal(n);
        let p = decimal(n / 10);
        assert(d == p + seq![(48 + n % 10) as u8]);
        assert(d.drop_last() =~= p);
        assert(d.last() == (48 + n % 10) as u8);
        assert(digits_value(d) == 10 * digits_value(p) + (n % 10));
        assert(10 * (n / 10) + n % 10 == n) by (nonlinear_arith);
        assert(d[0] == p[0]);
        assert forall|i: int| 0 <= i < d.len() implies 48 <= #[trigger] d[i] <= 57 by {
            if i < p.len() {
                assert(d[i] == p[i]);
            }
        }
    }
}

} // verus!
