//! What is shown of a mode and of a size, what a pattern matches, and what a path
//! is made of.
use crate::text::{dec, digit, parts_of, word_len};
use crate::util::{
    class_letters, glob, has, in_53_bits, kilo, nearest, octal, shown_size, symbolic, unit_name,
    unit_steps,
};
use vstd::prelude::*;

verus! {

// ---------------------------------------------------------------------
// Permissions
// ---------------------------------------------------------------------
proof fn bits_are_weights(mode: u16)
    ensures
        has(mode, 256) == (mode & 0o400 != 0),
        has(mode, 128) == (mode & 0o200 != 0),
        has(mode, 64) == (mode & 0o100 != 0),
        has(mode, 32) == (mode & 0o40 != 0),
        has(mode, 16) == (mode & 0o20 != 0),
        has(mode, 8) == (mode & 0o10 != 0),
        has(mode, 4) == (mode & 0o4 != 0),
        has(mode, 2) == (mode & 0o2 != 0),
        has(mode, 1) == (mode & 0o1 != 0),
        has(mode, 2048) == (mode & 0o4000 != 0),
        has(mode, 1024) == (mode & 0o2000 != 0),
        has(mode, 512) == (mode & 0o1000 != 0),
{
    assert((mode / 256 % 2 == 1) == (mode & 0o400 != 0) && (mode / 128 % 2 == 1) == (mode & 0o200
        != 0) && (mode / 64 % 2 == 1) == (mode & 0o100 != 0) && (mode / 32 % 2 == 1) == (mode & 0o40
        != 0) && (mode / 16 % 2 == 1) == (mode & 0o20 != 0) && (mode / 8 % 2 == 1) == (mode & 0o10
        != 0) && (mode / 4 % 2 == 1) == (mode & 0o4 != 0) && (mode / 2 % 2 == 1) == (mode & 0o2
        != 0) && (mode / 1 % 2 == 1) == (mode & 0o1 != 0) && (mode / 2048 % 2 == 1) == (mode
        & 0o4000 != 0) && (mode / 1024 % 2 == 1) == (mode & 0o2000 != 0) && (mode / 512 % 2 == 1)
        == (mode & 0o1000 != 0)) by (bit_vector);
}

/// What stands for the last bit of a class: whether it may execute, and whether
/// the special bit of the class is set.
pub open spec fn last_letter(execute: bool, special: bool, both: char, only: char) -> char {
    match (execute, special) {
        (true, true) => both,
        (false, true) => only,
        (true, false) => 'x',
        (false, false) => '-',
    }
}

/// The letters that show a mode: one for the type, then three each for the user,
/// the group and the others.
pub proof fn letters_show_the_mode(mode: u16)
    ensures
        ({
            let s = symbolic(mode);
            &&& s.len() == 10
            &&& s[0] == 'd' <==> mode & 0o170000 == 0o040000
            &&& s[0] == 'l' <==> mode & 0o170000 == 0o120000
            &&& s[0] == 'd' || s[0] == 'l' || s[0] == '-'
            &&& s[1] == if mode & 0o400 != 0 { 'r' } else { '-' }
            &&& s[2] == if mode & 0o200 != 0 { 'w' } else { '-' }
            &&& s[3] == last_letter(mode & 0o100 != 0, mode & 0o4000 != 0, 's', 'S')
            &&& s[4] == if mode & 0o40 != 0 { 'r' } else { '-' }
            &&& s[5] == if mode & 0o20 != 0 { 'w' } else { '-' }
            &&& s[6] == last_letter(mode & 0o10 != 0, mode & 0o2000 != 0, 's', 'S')
            &&& s[7] == if mode & 0o4 != 0 { 'r' } else { '-' }
            &&& s[8] == if mode & 0o2 != 0 { 'w' } else { '-' }
            &&& s[9] == last_letter(mode & 0o1 != 0, mode & 0o1000 != 0, 't', 'T')
        }),
{
    bits_are_weights(mode);
    let a = class_letters(mode, 64, 2048, 's', 'S');
    let b = class_letters(mode, 8, 1024, 's', 'S');
    let c = class_letters(mode, 1, 512, 't', 'T');
    assert(a.len() == 3 && b.len() == 3 && c.len() == 3);
}

/// The four digits that show a mode are its permission bits, in octal.
pub proof fn digits_show_the_mode(mode: u16)
    ensures
        ({
            let s = octal(mode);
            &&& s.len() == 4
            &&& forall|i: int| 0 <= i < 4 ==> '0' <= #[trigger] s[i] <= '7'
            &&& 512 * (s[0] as int - '0' as int) + 64 * (s[1] as int - '0' as int) + 8 * (
            s[2] as int - '0' as int) + (s[3] as int - '0' as int) == mode % 4096
        }),
{
    assert(forall|n: int| 0 <= n < 8 ==> (#[trigger] digit(n)) as int == '0' as int + n);
    octal_digits_make_the_number(mode);
    let m = mode as int;
    let s = octal(mode);
    assert(s[0] == digit(m / 512 % 8));
    assert(s[1] == digit(m / 64 % 8));
    assert(s[2] == digit(m / 8 % 8));
    assert(s[3] == digit(m % 8));
}

proof fn octal_digits_make_the_number(m: u16)
    ensures
        512 * (m as int / 512 % 8) + 64 * (m as int / 64 % 8) + 8 * (m as int / 8 % 8) + m as int % 8
            == m % 4096,
{
    assert(512 * (m / 512 % 8) + 64 * (m / 64 % 8) + 8 * (m / 8 % 8) + m % 8 == m % 4096)
        by (bit_vector);
}

// ---------------------------------------------------------------------
// Patterns
// ---------------------------------------------------------------------
/// A star matches every name.
pub proof fn stars_match_everything(name: Seq<u8>)
    ensures
        glob(name, seq![0x2au8]),
    decreases name.len(),
{
    let star = seq![0x2au8];
    assert(star.drop_first() =~= Seq::empty());
    if name.len() > 0 {
        stars_match_everything(name.drop_first());
    } else {
        assert(glob(name, star.drop_first()));
    }
}

/// A pattern of one byte other than a star matches names of one byte: any for a
/// question mark, else that byte alone.
pub proof fn single_bytes_match_themselves(name: Seq<u8>, b: u8)
    requires
        b != 0x2a,
    ensures
        glob(name, seq![b]) <==> name.len() == 1 && (b == 0x3f || name[0] == b),
{
    let p = seq![b];
    assert(p.drop_first() =~= Seq::empty());
    if name.len() > 0 {
        assert(glob(name.drop_first(), p.drop_first()) == (name.drop_first().len() == 0));
    }
}

/// No pattern matches the empty name alone.
pub proof fn nothing_matches_nothing(name: Seq<u8>)
    ensures
        glob(name, Seq::empty()) <==> name.len() == 0,
{
}

/// Two patterns, one behind the other, match a name that can be cut in two, the
/// front matching the one and the rest matching the other.
pub proof fn patterns_match_in_parts(name: Seq<u8>, p: Seq<u8>, q: Seq<u8>)
    ensures
        glob(name, p + q) <==> exists|i: int|
            0 <= i <= name.len() && glob(name.take(i), p) && #[trigger] glob(name.skip(i), q),
{
    if glob(name, p + q) {
        let i = matching_is_cut(name, p, q);
        assert(glob(name.skip(i), q));
    }
    if exists|i: int|
        0 <= i <= name.len() && glob(name.take(i), p) && #[trigger] glob(name.skip(i), q) {
        let i = choose|i: int|
            0 <= i <= name.len() && glob(name.take(i), p) && #[trigger] glob(name.skip(i), q);
        cuts_match(name, p, q, i);
    }
}

proof fn matching_is_cut(name: Seq<u8>, p: Seq<u8>, q: Seq<u8>) -> (i: int)
    requires
        glob(name, p + q),
    ensures
        0 <= i <= name.len(),
        glob(name.take(i), p),
        glob(name.skip(i), q),
    decreases p.len(), name.len(),
{
    let w = p + q;
    if p.len() == 0 {
        assert(w =~= q);
        assert(name.skip(0) =~= name);
        0
    } else {
        let r = p.drop_first();
        assert(w.drop_first() =~= r + q);
        assert(w[0] == p[0]);
        if p[0] == 42 && glob(name, w.drop_first()) {
            let i = matching_is_cut(name, r, q);
            i
        } else {
            let m = name.drop_first();
            let j = if p[0] == 42 {
                matching_is_cut(m, p, q)
            } else {
                matching_is_cut(m, r, q)
            };
            assert(m.skip(j) =~= name.skip(j + 1));
            let t = name.take(j + 1);
            assert(m.take(j) =~= t.drop_first());
            assert(t[0] == name[0]);
            j + 1
        }
    }
}

proof fn cuts_match(name: Seq<u8>, p: Seq<u8>, q: Seq<u8>, i: int)
    requires
        0 <= i <= name.len(),
        glob(name.take(i), p),
        glob(name.skip(i), q),
    ensures
        glob(name, p + q),
    decreases p.len(), i,
{
    let w = p + q;
    let t = name.take(i);
    if p.len() == 0 {
        assert(w =~= q);
        assert(i == 0);
        assert(name.skip(0) =~= name);
    } else {
        let r = p.drop_first();
        assert(w.drop_first() =~= r + q);
        assert(w[0] == p[0]);
        if p[0] == 42 && glob(t, r) {
            cuts_match(name, r, q, i);
        } else {
            let m = name.drop_first();
            assert(m.take(i - 1) =~= t.drop_first());
            assert(m.skip(i - 1) =~= name.skip(i));
            assert(t[0] == name[0]);
            if p[0] == 42 {
                cuts_match(m, p, q, i - 1);
            } else {
                cuts_match(m, r, q, i - 1);
            }
        }
    }
}

// ---------------------------------------------------------------------
// Paths
// ---------------------------------------------------------------------
/// A path spelled out: slashes, a part, slashes again, and so on. `gaps` says how
/// many slashes there are in front of each part, and behind the last one.
pub open spec fn spelled(parts: Seq<Seq<char>>, gaps: Seq<nat>) -> Seq<char>
    decreases parts.len(),
{
    if parts.len() == 0 {
        Seq::new(gaps[0], |i: int| '/')
    } else {
        Seq::new(gaps[0], |i: int| '/') + parts[0] + spelled(parts.drop_first(), gaps.drop_first())
    }
}

/// The parts of a path are what stands between its slashes, however many there
/// are.
pub proof fn parts_stand_between_slashes(parts: Seq<Seq<char>>, gaps: Seq<nat>)
    requires
        gaps.len() == parts.len() + 1,
        forall|k: int| 0 <= k < parts.len() ==> (#[trigger] parts[k]).len() > 0,
        forall|k: int| 0 <= k < parts.len() ==> !(#[trigger] parts[k]).contains('/'),
        forall|k: int| 1 <= k < parts.len() ==> #[trigger] gaps[k] > 0,
    ensures
        parts_of(spelled(parts, gaps)) == parts,
    decreases parts.len(),
{
    let path = spelled(parts, gaps);
    if parts.len() == 0 {
        slashes_are_no_part(gaps[0], Seq::empty());
        assert(path =~= Seq::new(gaps[0], |i: int| '/') + Seq::<char>::empty());
        assert(parts =~= Seq::empty());
    } else {
        let rest = parts.drop_first();
        let more = gaps.drop_first();
        let tail = spelled(rest, more);
        assert forall|k: int| 0 <= k < rest.len() implies (#[trigger] rest[k]).len() > 0 by {
            assert(rest[k] == parts[k + 1]);
        }
        assert forall|k: int| 0 <= k < rest.len() implies !(#[trigger] rest[k]).contains('/') by {
            assert(rest[k] == parts[k + 1]);
        }
        assert forall|k: int| 1 <= k < rest.len() implies #[trigger] more[k] > 0 by {
            assert(more[k] == gaps[k + 1]);
        }
        parts_stand_between_slashes(rest, more);
        let s = parts[0] + tail;
        assert(path =~= Seq::new(gaps[0], |i: int| '/') + s);
        slashes_are_no_part(gaps[0], s);
        assert(tail.len() == 0 || tail[0] == '/') by {
            if rest.len() > 0 {
                assert(gaps[1] > 0);
                assert(more[0] == gaps[1]);
            }
        }
        words_end_at_slashes(parts[0], tail);
        assert(s[0] == parts[0][0]);
        assert(parts[0].contains(parts[0][0]));
        assert(s.take(parts[0].len() as int) =~= parts[0]);
        assert(s.skip(parts[0].len() as int) =~= tail);
        assert(seq![parts[0]] + rest =~= parts);
    }
}

proof fn slashes_are_no_part(n: nat, s: Seq<char>)
    ensures
        parts_of(Seq::new(n, |i: int| '/') + s) == parts_of(s),
    decreases n,
{
    let t = Seq::new(n, |i: int| '/') + s;
    if n == 0 {
        assert(t =~= s);
    } else {
        assert(t.drop_first() =~= Seq::new((n - 1) as nat, |i: int| '/') + s);
        slashes_are_no_part((n - 1) as nat, s);
    }
}

proof fn words_end_at_slashes(w: Seq<char>, tail: Seq<char>)
    requires
        !w.contains('/'),
        tail.len() == 0 || tail[0] == '/',
    ensures
        word_len(w + tail) == w.len(),
    decreases w.len(),
{
    let s = w + tail;
    if w.len() > 0 {
        let rest = w.drop_first();
        assert(w.contains(w[0]));
        assert(s.drop_first() =~= rest + tail);
        assert forall|c: char| rest.contains(c) implies w.contains(c) by {
            let k = rest.index_of(c);
            assert(w[k + 1] == c);
        }
        assert(!rest.contains('/'));
        words_end_at_slashes(rest, tail);
    } else {
        assert(s =~= tail);
    }
}

// ---------------------------------------------------------------------
// Sizes
// ---------------------------------------------------------------------
/// A size below 1024 is shown in bytes. Others are shown in the largest unit
/// that they reach, as the number of tenths of it that is nearest. Sizes from
/// 2^53 up are first taken with 53 significant bits, which is not said here.
pub proof fn sizes_are_shown_in_tenths(size: u64, unit: int, name: Seq<char>)
    requires
        (unit == 1024 && name == " KiB"@) || (unit == 1024 * 1024 && name == " MiB"@) || (unit
            == 1024 * 1024 * 1024 && name == " GiB"@) || (unit == 1024 * 1024 * 1024 * 1024 && name
            == " TiB"@),
        unit <= size < 0x20_0000_0000_0000,
        size < 1024 * unit || unit == 1024 * 1024 * 1024 * 1024,
    ensures
        exists|tenths: int|
            shown_size(size) == #[trigger] dec(tenths / 10) + "."@ + dec(tenths % 10) + name && 2 * (
            10 * size - tenths * unit) <= unit && 2 * (tenths * unit - 10 * size) <= unit,
        forall|less: u64| less < 1024 ==> #[trigger] shown_size(less) == dec(less as int) + " B"@,
{
    let n = size as int;
    reveal_with_fuel(unit_steps, 6);
    reveal_with_fuel(kilo, 6);
    assert(in_53_bits(n) == n);
    let steps = unit_steps(n, 1, 4);
    assert(kilo(steps) == unit);
    assert(unit_name(steps) == name);
    let tenths = nearest(10 * n, unit);
    let q = (10 * n) / unit;
    let r = (10 * n) % unit;
    assert(q * unit + r == 10 * n && 0 <= r < unit) by (nonlinear_arith)
        requires
            unit > 0,
            q == (10 * n) / unit,
            r == (10 * n) % unit,
    ;
    assert((q + 1) * unit == q * unit + unit) by (nonlinear_arith);
    assert(shown_size(size) == dec(tenths / 10) + "."@ + dec(tenths % 10) + name);
    assert forall|less: u64| less < 1024 implies #[trigger] shown_size(less) == dec(less as int)
        + " B"@ by {
        assert(in_53_bits(less as int) == less);
    }
}

} // verus!
