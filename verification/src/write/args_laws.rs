//! What the values of options say: a number stands for itself, permissions are
//! octal, an owner is two numbers, and a reserve is a number of mebibytes.
use super::args::{
    colon_at, digit_value, digits_value, mode_of, number_of, owner_of, reserve_of, size_parts,
    without_octal,
};
use crate::error::Fault;
use crate::text::{dec, digit, numeral};
use vstd::prelude::*;

verus! {

/// The digits of a number have its value, and are digits of the base.
proof fn digits_have_their_value(n: nat, base: nat)
    requires
        2 <= base <= 10,
    ensures
        digits_value(numeral(n, base), base as int) == Some(n as int),
        numeral(n, base).len() > 0,
        forall|i: int|
            0 <= i < numeral(n, base).len() ==> '0' <= #[trigger] numeral(n, base)[i] <= '9',
    decreases n,
{
    let s = numeral(n, base);
    reveal_with_fuel(digits_value, 2);
    if n < base {
        assert(s == seq![digit(n as int)]);
        assert(s.drop_last() =~= Seq::<char>::empty());
        assert(digit_value(s.last()) == n);
        assert(0 * base == 0) by (nonlinear_arith);
        assert(digits_value(s.drop_last(), base as int) == Some(0int));
    } else {
        assert(n / base < n) by (nonlinear_arith)
            requires
                n >= base,
                base >= 2,
        ;
        assert(0 <= n % base < base && (n / base) * base + n % base == n) by (nonlinear_arith)
            requires
                base >= 2,
        ;
        digits_have_their_value(n / base, base);
        assert(s.drop_last() =~= numeral(n / base, base));
        assert(s.last() == digit((n % base) as int));
        assert(digit_value(s.last()) == n % base);
        assert(digits_value(s, base as int) == Some(((n / base) * base + n % base) as int));
        assert forall|i: int| 0 <= i < s.len() implies '0' <= #[trigger] s[i] <= '9' by {
            if i < s.len() - 1 {
                assert(s[i] == numeral(n / base, base)[i]);
            }
        }
    }
}

/// A text with anything but a digit of the base has no value.
proof fn others_have_no_value(s: Seq<char>, base: int, i: int)
    requires
        0 <= i < s.len(),
        !(0 <= digit_value(s[i]) < base),
    ensures
        digits_value(s, base) is None,
    decreases s.len(),
{
    if i < s.len() - 1 {
        assert(s.drop_last()[i] == s[i]);
        others_have_no_value(s.drop_last(), base, i);
    }
}

/// A number that is written in a base, perhaps behind a plus sign, is read as
/// itself where it is not above the limit, and not at all where it is.
pub proof fn numbers_are_read(n: nat, base: nat, max: int)
    requires
        2 <= base <= 10,
    ensures
        n <= max ==> number_of(numeral(n, base), base as int, max) == Some(n as int),
        n <= max ==> number_of(seq!['+'] + numeral(n, base), base as int, max) == Some(n as int),
        n > max ==> number_of(numeral(n, base), base as int, max) is None,
        n > max ==> number_of(seq!['+'] + numeral(n, base), base as int, max) is None,
{
    digits_have_their_value(n, base);
    let s = numeral(n, base);
    assert('0' <= s[0] <= '9');
    assert((seq!['+'] + s).drop_first() =~= s);
}

/// A text that holds anything but digits of the base behind its first character
/// is no number, and neither is an empty one.
pub proof fn other_texts_are_no_numbers(s: Seq<char>, base: int, max: int, i: int)
    requires
        base <= 10,
        1 <= i < s.len(),
        s[i] < '0' || s[i] as int >= '0' as int + base,
    ensures
        number_of(s, base, max) is None,
        number_of(Seq::empty(), base, max) is None,
{
    if s[0] == '+' {
        assert(s.drop_first()[i - 1] == s[i]);
        others_have_no_value(s.drop_first(), base, i - 1);
    } else {
        others_have_no_value(s, base, i);
    }
}

/// Permissions are read from their octal digits, with and without `0o`.
pub proof fn modes_are_octal(mode: u16)
    ensures
        mode_of(numeral(mode as nat, 8)) == Ok::<u16, Fault>(mode),
        mode_of(seq!['0', 'o'] + numeral(mode as nat, 8)) == Ok::<u16, Fault>(mode),
{
    let s = numeral(mode as nat, 8);
    numbers_are_read(mode as nat, 8, 0xffff);
    digits_have_their_value(mode as nat, 8);
    if s.len() >= 2 {
        assert(s[1] <= '9');
    }
    assert(without_octal(s) == s);
    let t = seq!['0', 'o'] + s;
    assert(t.skip(2) =~= s);
    assert(without_octal(t) == without_octal(s));
}

/// The first colon is behind the characters that are none.
proof fn colon_is_found(s: Seq<char>, i: int, k: int)
    requires
        0 <= i <= k < s.len(),
        s[k] == ':',
        forall|j: int| i <= j < k ==> #[trigger] s[j] != ':',
    ensures
        colon_at(s, i) == Some(k),
    decreases k - i,
{
    if i < k {
        assert(s[i] != ':');
        colon_is_found(s, i + 1, k);
    }
}

/// An owner is the number of the user, a colon and the number of the group.
pub proof fn owners_are_read(uid: u32, gid: u32)
    ensures
        owner_of(dec(uid as int) + seq![':'] + dec(gid as int)) == Ok::<(u32, u32), Fault>(
            (uid, gid),
        ),
{
    let u = dec(uid as int);
    let g = dec(gid as int);
    let s = u + seq![':'] + g;
    digits_have_their_value(uid as nat, 10);
    numbers_are_read(uid as nat, 10, u32::MAX as int);
    numbers_are_read(gid as nat, 10, u32::MAX as int);
    assert forall|j: int| 0 <= j < u.len() implies #[trigger] s[j] != ':' by {
        assert(s[j] == u[j]);
    }
    colon_is_found(s, 0, u.len() as int);
    assert(s.take(u.len() as int) =~= u);
    assert(s.skip(u.len() as int + 1) =~= g);
}

/// A reserve is a number of mebibytes, with `M` or alone. With `G` it is 1024
/// times as many, as far as a number can say it; with `K` it is the fewest
/// mebibytes that hold so many kibibytes.
pub proof fn reserves_are_read(n: u64)
    ensures
        reserve_of(dec(n as int)) == Ok::<u64, Fault>(n),
        reserve_of(dec(n as int).push('M')) == Ok::<u64, Fault>(n),
        reserve_of(dec(n as int).push('m')) == Ok::<u64, Fault>(n),
        n * 1024 <= u64::MAX ==> reserve_of(dec(n as int).push('G')) == Ok::<u64, Fault>(
            (n * 1024) as u64,
        ),
        n * 1024 > u64::MAX ==> reserve_of(dec(n as int).push('G')) == Ok::<u64, Fault>(u64::MAX),
        reserve_of(dec(n as int).push('g')) == reserve_of(dec(n as int).push('G')),
        reserve_of(dec(n as int).push('K')) matches Ok(m) && m * 1024 >= n && (m - 1) * 1024 < n,
        reserve_of(dec(n as int).push('k')) == reserve_of(dec(n as int).push('K')),
{
    let s = dec(n as int);
    digits_have_their_value(n as nat, 10);
    numbers_are_read(n as nat, 10, u64::MAX as int);
    assert('0' <= s[s.len() - 1] <= '9');
    assert(size_parts(s) == (s, 1int));
    assert(s.push('M').drop_last() =~= s);
    assert(s.push('m').drop_last() =~= s);
    assert(s.push('G').drop_last() =~= s);
    assert(s.push('g').drop_last() =~= s);
    assert(s.push('K').drop_last() =~= s);
    assert(s.push('k').drop_last() =~= s);
}

} // verus!
