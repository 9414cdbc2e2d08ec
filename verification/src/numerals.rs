//! How the `.map` text writes numbers.
use vstd::prelude::*;
use vstd::string::*;
use crate::exporter::{digit_text, int_text, nat_text};

verus! {

/// The value of a string of decimal digits, most significant first.
pub open spec fn decimal_value(s: Seq<char>) -> int
    decreases s.len(),
{
    if s.len() == 0 {
        0
    } else {
        10 * decimal_value(s.drop_last()) + (s.last() as int - '0' as int)
    }
}

/// Every character of `s` is a decimal digit.
pub open spec fn all_digits(s: Seq<char>) -> bool {
    forall|i: int| 0 <= i < s.len() ==> '0' <= #[trigger] s[i] <= '9'
}

/// Numbers are written in plain decimal: the numeral of `n` is a non-empty
/// string of digits, without a leading zero unless it is `0`, whose value
/// is `n`; a negative integer is `-` followed by the numeral of its
/// magnitude.
pub proof fn law_numbers_are_written_in_decimal(n: nat, i: int)
    ensures
        nat_text(n).len() > 0,
        all_digits(nat_text(n)),
        decimal_value(nat_text(n)) == n,
        nat_text(n).len() > 1 ==> nat_text(n)[0] != '0',
        i < 0 ==> int_text(i) == seq!['-'] + nat_text((-i) as nat),
        i >= 0 ==> int_text(i) == nat_text(i as nat),
    decreases n,
{
    reveal_strlit("0");
    reveal_strlit("1");
    reveal_strlit("2");
    reveal_strlit("3");
    reveal_strlit("4");
    reveal_strlit("5");
    reveal_strlit("6");
    reveal_strlit("7");
    reveal_strlit("8");
    reveal_strlit("9");
    reveal_strlit("-");
    if n >= 10 {
        law_numbers_are_written_in_decimal(n / 10, 0);
        let d = digit_text((n % 10) as int);
        let s = nat_text(n / 10) + d;
        assert(nat_text(n) == s);
        assert(d.len() == 1 && '0' <= d[0] <= '9' && d[0] as int - '0' as int == n % 10);
        assert(s.drop_last() =~= nat_text(n / 10));
        assert(s.last() == d[0]);
        assert(n == 10 * (n / 10) + n % 10);
        assert(s[0] == nat_text(n / 10)[0]);
        if nat_text(n / 10).len() == 1 {
            assert(n / 10 != 0);
            assert(decimal_value(nat_text(n / 10).drop_last()) == 0);
            assert(nat_text(n / 10)[0] as int - '0' as int == n / 10);
        }
    } else {
        let d = digit_text(n as int);
        assert(nat_text(n) == d);
        assert(d.len() == 1 && '0' <= d[0] <= '9' && d[0] as int - '0' as int == n);
        assert(d.drop_last() =~= Seq::<char>::empty());
        assert(decimal_value(Seq::<char>::empty()) == 0);
        assert(decimal_value(d) == 10 * decimal_value(d.drop_last()) + (d.last() as int - '0' as int));
    }
    if i < 0 {
        assert(int_text(i) =~= seq!['-'] + nat_text((-i) as nat));
    }
}

} // verus!
