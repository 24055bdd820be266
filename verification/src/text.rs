//! Decimal text of integers.
use vstd::prelude::*;

verus! {

/// The decimal digits, in order.
pub open spec fn digits() -> Seq<char> {
    seq!['0', '1', '2', '3', '4', '5', '6', '7', '8', '9']
}

/// The decimal text of a natural number, without leading zeros.
pub open spec fn nat_text(n: nat) -> Seq<char>
    decreases n,
{
    if n < 10 {
        seq![digits()[n as int]]
    } else {
        nat_text(n / 10).push(digits()[(n % 10) as int])
    }
}

/// The decimal text of an integer, with a leading `-` when it is negative.
pub open spec fn int_text(i: int) -> Seq<char> {
    if i < 0 {
        seq!['-'] + nat_text((-i) as nat)
    } else {
        nat_text(i as nat)
    }
}

fn digit_str(d: u64) -> (r: &'static str)
    requires
        d < 10,
    ensures
        r@ == seq![digits()[d as int]],
{
    let all = "0123456789";
    proof {
        reveal_strlit("0123456789");
    }
    let r = all.substring_char(d as usize, (d + 1) as usize);
    assert(r@ =~= seq![digits()[d as int]]);
    r
}

/// The decimal text of a natural number.
pub fn nat_to_text(n: u64) -> (r: String)
    ensures
        r@ == nat_text(n as nat),
    decreases n,
{
    if n < 10 {
        String::from_str(digit_str(n))
    } else {
        let mut s = nat_to_text(n / 10);
        s.append(digit_str(n % 10));
        s
    }
}

/// The decimal text of an integer.
pub fn int_to_text(i: i64) -> (r: String)
    ensures
        r@ == int_text(i as int),
{
    if i < 0 {
        let m: u64 = (0i128 - i as i128) as u64;
        let mut s = String::from_str("-");
        proof {
            reveal_strlit("-");
        }
        let t = nat_to_text(m);
        s.append(t.as_str());
        s
    } else {
        nat_to_text(i as u64)
    }
}


/// Whether `c` is one of the ten decimal digits.
pub open spec fn is_decimal_digit(c: char) -> bool {
    '0' as int <= c as int <= '9' as int
}

/// The number a decimal digit stands for.
pub open spec fn digit_value(c: char) -> int {
    c as int - '0' as int
}

/// The number a text of decimal digits stands for, read left to right.
pub open spec fn decimal_value(s: Seq<char>) -> int
    decreases s.len(),
{
    if s.len() == 0 {
        0
    } else {
        decimal_value(s.drop_last()) * 10 + digit_value(s.last())
    }
}

/// Whether `s` is a decimal numeral as written normally: digits only, at least
/// one, and no leading zero unless the numeral is `0` itself.
pub open spec fn canonical_decimal(s: Seq<char>) -> bool {
    &&& s.len() > 0
    &&& forall|i: int| 0 <= i < s.len() ==> #[trigger] is_decimal_digit(s[i])
    &&& (s[0] == '0' ==> s.len() == 1)
}

proof fn lemma_digit(d: int)
    requires
        0 <= d < 10,
    ensures
        digits()[d] as int == '0' as int + d,
        is_decimal_digit(digits()[d]),
        digit_value(digits()[d]) == d,
{
    if d == 0 {
        assert(digits()[0] == '0');
    } else if d == 1 {
        assert(digits()[1] == '1');
    } else if d == 2 {
        assert(digits()[2] == '2');
    } else if d == 3 {
        assert(digits()[3] == '3');
    } else if d == 4 {
        assert(digits()[4] == '4');
    } else if d == 5 {
        assert(digits()[5] == '5');
    } else if d == 6 {
        assert(digits()[6] == '6');
    } else if d == 7 {
        assert(digits()[7] == '7');
    } else if d == 8 {
        assert(digits()[8] == '8');
    } else {
        assert(digits()[9] == '9');
    }
}

/// The text of a natural number is its decimal numeral: it reads back as the
/// number, and it has no leading zero.
pub proof fn law_nat_text_reads_back(n: nat)
    ensures
        canonical_decimal(nat_text(n)),
        decimal_value(nat_text(n)) == n,
        nat_text(n)[0] == '0' <==> n == 0,
    decreases n,
{
    if n < 10 {
        lemma_digit(n as int);
        let t = nat_text(n);
        assert(t.drop_last() =~= Seq::<char>::empty());
        assert(t.last() == digits()[n as int]);
        assert(decimal_value(t) == decimal_value(t.drop_last()) * 10 + digit_value(t.last()));
        assert(decimal_value(Seq::<char>::empty()) == 0);
    } else {
        law_nat_text_reads_back(n / 10);
        lemma_digit((n % 10) as int);
        let p = nat_text(n / 10);
        let t = nat_text(n);
        assert(t == p.push(digits()[(n % 10) as int]));
        assert(t.drop_last() =~= p);
        assert(t[0] == p[0]);
        assert forall|i: int| 0 <= i < t.len() implies #[trigger] is_decimal_digit(t[i]) by {
            if i < p.len() {
                assert(t[i] == p[i]);
            }
        }
        assert(t.last() == digits()[(n % 10) as int]);
        assert(decimal_value(t) == decimal_value(p) * 10 + digit_value(t.last()));
        assert((n / 10) * 10 + n % 10 == n);
    }
}

/// The text of an integer is `-` before the numeral of its magnitude where it
/// is negative, and that numeral alone otherwise.
pub proof fn law_int_text_reads_back(i: int)
    ensures
        (int_text(i)[0] == '-') <==> i < 0,
        canonical_decimal(if i < 0 { int_text(i).drop_first() } else { int_text(i) }),
        decimal_value(if i < 0 { int_text(i).drop_first() } else { int_text(i) }) == if i < 0 {
            -i
        } else {
            i
        },
{
    if i < 0 {
        law_nat_text_reads_back((-i) as nat);
        let t = nat_text((-i) as nat);
        assert((seq!['-'] + t).drop_first() =~= t);
        assert((seq!['-'] + t)[0] == '-');
    } else {
        law_nat_text_reads_back(i as nat);
        let t = nat_text(i as nat);
        assert(is_decimal_digit(t[0]));
        assert(!is_decimal_digit('-'));
    }
}


/// Whether `t` is the numeral of `i`: `-` before the numeral of its magnitude
/// where it is negative, that numeral alone otherwise.
pub open spec fn numeral_of(t: Seq<char>, i: int) -> bool {
    &&& t.len() > 0
    &&& (t[0] == '-') <==> i < 0
    &&& canonical_decimal(if i < 0 { t.drop_first() } else { t })
    &&& decimal_value(if i < 0 { t.drop_first() } else { t }) == if i < 0 {
        -i
    } else {
        i
    }
}

/// The text of every integer is its numeral.
pub proof fn law_int_text_is_numeral(i: int)
    ensures
        numeral_of(int_text(i), i),
{
    law_int_text_reads_back(i);
    if i < 0 {
        law_nat_text_reads_back((-i) as nat);
    } else {
        law_nat_text_reads_back(i as nat);
    }
}

} // verus!
