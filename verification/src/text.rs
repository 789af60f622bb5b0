//! Strings as sequences of characters: building, comparing and splitting.
use vstd::prelude::*;
use vstd::utf8::{decode_utf8, encode_utf8, valid_utf8};

verus! {

// ---------------------------------------------------------------------
// What the standard library is trusted for
// ---------------------------------------------------------------------
/// `String::push` appends the character to the end of the string.
pub assume_specification[ String::push ](s: &mut String, c: char)
    ensures
        final(s)@ == old(s)@.push(c),
;

/// The text that a lossy decoding of bytes yields that are not UTF-8.
pub uninterp spec fn lossy_text(bytes: Seq<u8>) -> Seq<char>;

/// The text that bytes stand for.
pub open spec fn text_of(bytes: Seq<u8>) -> Seq<char> {
    if valid_utf8(bytes) {
        decode_utf8(bytes)
    } else {
        lossy_text(bytes)
    }
}

/// `String::from_utf8_lossy`: valid UTF-8 is decoded as it stands. What
/// stands for the invalid parts of other input has a name and nothing more.
#[verifier::external_body]
pub(crate) fn from_utf8_lossy(bytes: &[u8]) -> (s: String)
    ensures
        valid_utf8(bytes@) ==> s@ == decode_utf8(bytes@),
        !valid_utf8(bytes@) ==> s@ == lossy_text(bytes@),
{
    String::from_utf8_lossy(bytes).into_owned()
}

/// `std::str::from_utf8` succeeds exactly on valid UTF-8.
#[verifier::external_body]
pub(crate) fn is_utf8(bytes: &[u8]) -> (b: bool)
    ensures
        b == valid_utf8(bytes@),
{
    std::str::from_utf8(bytes).is_ok()
}

// ---------------------------------------------------------------------
// Conversions and comparison
// ---------------------------------------------------------------------
/// The characters of a string.
pub fn chars_of(s: &str) -> (v: Vec<char>)
    ensures
        v@ == s@,
{
    let mut v: Vec<char> = Vec::new();
    for c in it: s.chars()
        invariant
            v@ == it.seq().take(it.index()),
            it.seq() == s@,
    {
        proof {
            assert(it.seq().take(it.index() + 1) =~= it.seq().take(it.index()).push(c));
        }
        v.push(c);
    }
    assert(v@ =~= s@);
    v
}

/// The string made of the given characters.
pub fn string_of(v: &[char]) -> (s: String)
    ensures
        s@ == v@,
{
    let mut s = String::new();
    let mut i: usize = 0;
    while i < v.len()
        invariant
            i <= v.len(),
            s@ == v@.take(i as int),
        decreases v.len() - i,
    {
        assert(v@.take(i + 1) =~= v@.take(i as int).push(v@[i as int]));
        s.push(v[i]);
        i += 1;
    }
    assert(v@.take(i as int) =~= v@);
    s
}

/// Whether two byte strings are equal.
pub fn same_bytes(a: &[u8], b: &[u8]) -> (r: bool)
    ensures
        r == (a@ == b@),
{
    if a.len() != b.len() {
        return false;
    }
    let mut i: usize = 0;
    while i < a.len()
        invariant
            i <= a.len(),
            a.len() == b.len(),
            forall|k: int| 0 <= k < i ==> a@[k] == b@[k],
        decreases a.len() - i,
    {
        if a[i] != b[i] {
            return false;
        }
        i += 1;
    }
    assert(a@ =~= b@);
    true
}

/// Text is determined by its UTF-8 encoding.
pub proof fn utf8_is_faithful(a: Seq<char>, b: Seq<char>)
    ensures
        (encode_utf8(a) == encode_utf8(b)) == (a == b),
{
    vstd::utf8::encode_utf8_decode_utf8(a);
    vstd::utf8::encode_utf8_decode_utf8(b);
}

/// Whether two strings are equal.
pub fn same(a: &str, b: &str) -> (r: bool)
    ensures
        r == (a@ == b@),
{
    proof {
        utf8_is_faithful(a@, b@);
    }
    same_bytes(a.as_bytes(), b.as_bytes())
}

// ---------------------------------------------------------------------
// Numbers as text
// ---------------------------------------------------------------------
/// The digit of value `n` (below sixteen, lower case).
pub open spec fn digit(n: int) -> char {
    if n < 10 {
        ('0' as int + n) as char
    } else {
        ('a' as int + n - 10) as char
    }
}

/// `n` written in the given base, without leading zeros.
pub open spec fn numeral(n: nat, base: nat) -> Seq<char>
    decreases n,
{
    if base < 2 || n < base {
        seq![digit(n as int)]
    } else {
        proof {
            assert(n / base < n) by (nonlinear_arith)
                requires
                    n >= base,
                    base >= 2,
            ;
        }
        numeral(n / base, base).push(digit((n % base) as int))
    }
}

/// `n` in decimal.
pub open spec fn dec(n: int) -> Seq<char> {
    numeral(n as nat, 10)
}

/// `n` in hexadecimal.
pub open spec fn hex(n: int) -> Seq<char> {
    numeral(n as nat, 16)
}

fn digit_char(n: u8) -> (c: char)
    requires
        n < 16,
    ensures
        c == digit(n as int),
{
    if n < 10 {
        (48u8 + n) as char
    } else {
        (97u8 + (n - 10)) as char
    }
}

/// Appends `n` in the given base.
pub fn push_numeral(s: &mut String, n: u64, base: u64)
    requires
        2 <= base <= 16,
    ensures
        final(s)@ == old(s)@ + numeral(n as nat, base as nat),
    decreases n,
{
    if n < base {
        s.push(digit_char(n as u8));
        assert(s@ =~= old(s)@ + numeral(n as nat, base as nat));
    } else {
        proof {
            assert(n / base < n) by (nonlinear_arith)
                requires
                    n >= base,
                    base >= 2,
            ;
        }
        push_numeral(s, n / base, base);
        s.push(digit_char((n % base) as u8));
        assert(s@ =~= old(s)@ + numeral(n as nat, base as nat));
    }
}

/// Appends a piece of text.
pub fn push_text(s: &mut String, t: &str)
    ensures
        final(s)@ == old(s)@ + t@,
{
    s.append(t);
}

/// `before`, the number in decimal, `after`.
pub fn with_number(before: &str, n: u64, after: &str) -> (s: String)
    ensures
        s@ == before@ + dec(n as int) + after@,
{
    let mut s = before.to_owned();
    push_numeral(&mut s, n, 10);
    push_text(&mut s, after);
    s
}

/// `before`, the text, `after`.
pub fn with_text(before: &str, t: &str, after: &str) -> (s: String)
    ensures
        s@ == before@ + t@ + after@,
{
    let mut s = before.to_owned();
    push_text(&mut s, t);
    push_text(&mut s, after);
    s
}

// ---------------------------------------------------------------------
// Trimming
// ---------------------------------------------------------------------
/// The text without the NUL characters at its start.
pub open spec fn trim_start(s: Seq<char>) -> Seq<char>
    decreases s.len(),
{
    if s.len() > 0 && s[0] == '\0' {
        trim_start(s.drop_first())
    } else {
        s
    }
}

/// The text without the NUL characters at its end.
pub open spec fn trim_end(s: Seq<char>) -> Seq<char>
    decreases s.len(),
{
    if s.len() > 0 && s.last() == '\0' {
        trim_end(s.drop_last())
    } else {
        s
    }
}

/// The text without the NUL characters at its start and at its end.
pub open spec fn trim_both(s: Seq<char>) -> Seq<char> {
    trim_end(trim_start(s))
}

/// The part of `v` without NUL characters at its end, as an end index.
fn end_without_nul(v: &[char], from: usize) -> (to: usize)
    requires
        from <= v@.len(),
    ensures
        from <= to <= v@.len(),
        trim_end(v@.subrange(from as int, v@.len() as int)) == v@.subrange(from as int, to as int),
{
    let mut to: usize = v.len();
    while to > from && v[to - 1] == '\0'
        invariant
            from <= to <= v@.len(),
            trim_end(v@.subrange(from as int, v@.len() as int)) == trim_end(
                v@.subrange(from as int, to as int),
            ),
        decreases to - from,
    {
        proof {
            let s = v@.subrange(from as int, to as int);
            assert(s.last() == v@[to - 1]);
            assert(s.drop_last() =~= v@.subrange(from as int, to - 1));
        }
        to -= 1;
    }
    proof {
        let s = v@.subrange(from as int, to as int);
        if to > from {
            assert(s.last() == v@[to - 1]);
        }
    }
    to
}

/// A string without the NUL characters at its end.
pub fn trim_end_nul(s: &str) -> (r: String)
    ensures
        r@ == trim_end(s@),
{
    let v = chars_of(s);
    let to = end_without_nul(&v, 0);
    assert(v@.subrange(0, v@.len() as int) =~= s@);
    string_of(&v[0..to])
}

/// A string without the NUL characters at its start and at its end.
pub fn trim_nul(s: &str) -> (r: String)
    ensures
        r@ == trim_both(s@),
{
    let v = chars_of(s);
    let mut from: usize = 0;
    assert(v@.subrange(0, v@.len() as int) =~= s@);
    while from < v.len() && v[from] == '\0'
        invariant
            from <= v@.len(),
            trim_start(s@) == trim_start(v@.subrange(from as int, v@.len() as int)),
        decreases v.len() - from,
    {
        proof {
            let t = v@.subrange(from as int, v@.len() as int);
            assert(t[0] == v@[from as int]);
            assert(t.drop_first() =~= v@.subrange(from + 1, v@.len() as int));
        }
        from += 1;
    }
    proof {
        let t = v@.subrange(from as int, v@.len() as int);
        if from < v@.len() {
            assert(t[0] == v@[from as int]);
        }
    }
    let to = end_without_nul(&v, from);
    string_of(&v[from..to])
}

/// The view of an optional string.
pub open spec fn opt_text(s: Option<String>) -> Option<Seq<char>> {
    match s {
        Some(t) => Some(t@),
        None => None,
    }
}

/// A copy of an optional string.
pub fn copy_opt(s: &Option<String>) -> (r: Option<String>)
    ensures
        opt_text(r) == opt_text(*s),
{
    match s {
        Some(t) => Some(t.clone()),
        None => None,
    }
}

/// Trimming leaves text without NUL characters alone.
pub proof fn trim_keeps(s: Seq<char>)
    requires
        !s.contains('\0'),
    ensures
        trim_both(s) == s,
        trim_end(s) == s,
{
    if s.len() > 0 {
        assert(s.contains(s[0]));
        assert(s.contains(s.last()));
    }
}

/// Trimming removes a run of NUL characters from the end of text.
pub proof fn trim_end_drops(s: Seq<char>, n: nat)
    requires
        !s.contains('\0'),
    ensures
        trim_end(s + nuls(n)) == s,
    decreases n,
{
    let pad = nuls(n);
    if n == 0 {
        assert(s + pad =~= s);
        trim_keeps(s);
    } else {
        assert((s + pad).last() == '\0');
        assert((s + pad).drop_last() =~= s + nuls((n - 1) as nat));
        trim_end_drops(s, (n - 1) as nat);
    }
}

/// A run of NUL characters.
pub open spec fn nuls(n: nat) -> Seq<char> {
    Seq::new(n, |i: int| '\0')
}

/// Text with zero bytes behind it reads as the text with NUL characters
/// behind it.
pub proof fn padded_text(t: Seq<char>, n: nat)
    ensures
        encode_utf8(t + nuls(n)) == encode_utf8(t) + Seq::new(n, |i: int| 0u8),
        text_of(encode_utf8(t) + Seq::new(n, |i: int| 0u8)) == t + nuls(n),
        text_of(encode_utf8(t)) == t,
    decreases t.len(), n,
{
    let z = Seq::new(n, |i: int| 0u8);
    let s = t + nuls(n);
    if t.len() == 0 {
        assert(encode_utf8(t) =~= Seq::empty());
        if n == 0 {
            assert(s =~= Seq::empty());
            assert(z =~= Seq::empty());
        } else {
            let m = (n - 1) as nat;
            padded_text(t, m);
            assert(s.drop_first() =~= t + nuls(m));
            assert(s[0] == '\0');
            let zero: u32 = '\0' as u32;
            assert(zero == 0);
            assert((0u32 & 0x7F) as u8 == 0u8) by (bit_vector);
            assert(vstd::utf8::encode_scalar(0u32) =~= seq![0u8]);
            assert(z =~= seq![0u8] + Seq::new(m, |i: int| 0u8));
            assert(encode_utf8(s) =~= z);
        }
        assert(encode_utf8(s) =~= encode_utf8(t) + z);
    } else {
        padded_text(t.drop_first(), n);
        assert(s.drop_first() =~= t.drop_first() + nuls(n));
        assert(s[0] == t[0]);
        assert(encode_utf8(s) =~= encode_utf8(t) + z);
    }
    vstd::utf8::encode_utf8_valid_utf8(s);
    vstd::utf8::encode_utf8_decode_utf8(s);
    vstd::utf8::encode_utf8_valid_utf8(t);
    vstd::utf8::encode_utf8_decode_utf8(t);
}

// ---------------------------------------------------------------------
// Order
// ---------------------------------------------------------------------
/// Whether `a` comes before `b` byte by byte.
pub open spec fn bytes_less(a: Seq<u8>, b: Seq<u8>) -> bool
    decreases a.len(),
{
    if b.len() == 0 {
        false
    } else if a.len() == 0 {
        true
    } else if a[0] != b[0] {
        a[0] < b[0]
    } else {
        bytes_less(a.drop_first(), b.drop_first())
    }
}

/// Whether the text `a` comes before `b`: strings are ordered by their bytes.
pub open spec fn text_less(a: Seq<char>, b: Seq<char>) -> bool {
    bytes_less(encode_utf8(a), encode_utf8(b))
}

/// Whether `a` comes before `b`.
pub fn is_less(a: &str, b: &str) -> (r: bool)
    ensures
        r == text_less(a@, b@),
{
    let x = a.as_bytes();
    let y = b.as_bytes();
    let mut i: usize = 0;
    assert(x@.skip(0) =~= x@);
    assert(y@.skip(0) =~= y@);
    while i < x.len() && i < y.len() && x[i] == y[i]
        invariant
            i <= x@.len(),
            i <= y@.len(),
            bytes_less(x@, y@) == bytes_less(x@.skip(i as int), y@.skip(i as int)),
        decreases x@.len() - i,
    {
        proof {
            assert(x@.skip(i as int)[0] == x@[i as int]);
            assert(y@.skip(i as int)[0] == y@[i as int]);
            assert(x@.skip(i as int).drop_first() =~= x@.skip(i + 1));
            assert(y@.skip(i as int).drop_first() =~= y@.skip(i + 1));
        }
        i += 1;
    }
    proof {
        if i < x@.len() {
            assert(x@.skip(i as int)[0] == x@[i as int]);
        }
        if i < y@.len() {
            assert(y@.skip(i as int)[0] == y@[i as int]);
        }
    }
    if i >= y.len() {
        false
    } else if i >= x.len() {
        true
    } else {
        x[i] < y[i]
    }
}

/// The order of byte strings is total.
pub proof fn bytes_less_is_total(a: Seq<u8>, b: Seq<u8>)
    ensures
        bytes_less(a, b) || bytes_less(b, a) || a == b,
        !(bytes_less(a, b) && bytes_less(b, a)),
        !bytes_less(a, a),
    decreases a.len(),
{
    if a.len() > 0 && b.len() > 0 && a[0] == b[0] {
        bytes_less_is_total(a.drop_first(), b.drop_first());
        if a.drop_first() == b.drop_first() {
            assert(a =~= seq![a[0]] + a.drop_first());
            assert(b =~= seq![b[0]] + b.drop_first());
        }
    }
    if a.len() == 0 && b.len() == 0 {
        assert(a =~= b);
    }
    if a.len() > 0 {
        bytes_less_is_total_self(a);
    }
}

proof fn bytes_less_is_total_self(a: Seq<u8>)
    ensures
        !bytes_less(a, a),
    decreases a.len(),
{
    if a.len() > 0 {
        bytes_less_is_total_self(a.drop_first());
    }
}

/// What does not come after goes on: the order of byte strings is
/// transitive.
pub proof fn bytes_less_is_transitive(a: Seq<u8>, b: Seq<u8>, c: Seq<u8>)
    requires
        !bytes_less(b, a),
        !bytes_less(c, b),
    ensures
        !bytes_less(c, a),
    decreases a.len(),
{
    if a.len() > 0 && b.len() > 0 && c.len() > 0 && a[0] == b[0] && b[0] == c[0] {
        bytes_less_is_transitive(a.drop_first(), b.drop_first(), c.drop_first());
    }
}

/// The views of a sequence of strings.
pub open spec fn texts(s: Seq<String>) -> Seq<Seq<char>> {
    s.map_values(|t: String| t@)
}

/// Where a text goes among sorted ones: behind those that do not come after
/// it.
pub open spec fn text_place(s: Seq<Seq<char>>, t: Seq<char>) -> int
    decreases s.len(),
{
    if s.len() == 0 || !text_less(t, s.last()) {
        s.len() as int
    } else {
        text_place(s.drop_last(), t)
    }
}

/// The texts in order.
pub open spec fn sorted_texts(s: Seq<Seq<char>>) -> Seq<Seq<char>>
    decreases s.len(),
{
    if s.len() == 0 {
        s
    } else {
        let rest = sorted_texts(s.drop_last());
        rest.insert(text_place(rest, s.last()), s.last())
    }
}

/// Sorts strings.
pub fn sort_strings(v: Vec<String>) -> (r: Vec<String>)
    ensures
        texts(r@) == sorted_texts(texts(v@)),
{
    let mut out: Vec<String> = Vec::new();
    let ghost all = texts(v@);
    let mut i: usize = 0;
    assert(texts(out@) =~= sorted_texts(all.take(0)));
    while i < v.len()
        invariant
            i <= v.len(),
            all == texts(v@),
            texts(out@) == sorted_texts(all.take(i as int)),
        decreases v.len() - i,
    {
        let t = v[i].clone();
        let ghost have = texts(out@);
        let mut at = out.len();
        assert(have.take(at as int) =~= have);
        while at > 0 && is_less(t.as_str(), out[at - 1].as_str())
            invariant
                at <= out.len(),
                texts(out@) == have,
                text_place(have, t@) == text_place(have.take(at as int), t@),
            decreases at,
        {
            proof {
                let h = have.take(at as int);
                assert(h.last() == out@[at - 1]@);
                assert(h.drop_last() =~= have.take(at - 1));
            }
            at -= 1;
        }
        proof {
            let h = have.take(at as int);
            if at > 0 {
                assert(h.last() == out@[at - 1]@);
            }
            let n = all.take(i + 1);
            assert(n.drop_last() =~= all.take(i as int));
            assert(n.last() == t@);
        }
        let ghost before = out@;
        out.insert(at, t);
        assert(texts(out@) =~= have.insert(at as int, t@));
        i += 1;
    }
    assert(all.take(i as int) =~= all);
    out
}

/// Whether two lists of strings are equal.
pub fn same_strings(a: &Vec<String>, b: &Vec<String>) -> (r: bool)
    ensures
        r == (texts(a@) == texts(b@)),
{
    if a.len() != b.len() {
        assert(texts(a@).len() != texts(b@).len());
        return false;
    }
    let mut i: usize = 0;
    while i < a.len()
        invariant
            i <= a.len(),
            a.len() == b.len(),
            forall|k: int| 0 <= k < i ==> (#[trigger] a@[k])@ == b@[k]@,
        decreases a.len() - i,
    {
        if !same(a[i].as_str(), b[i].as_str()) {
            assert(texts(a@)[i as int] != texts(b@)[i as int]);
            return false;
        }
        i += 1;
    }
    assert(texts(a@) =~= texts(b@));
    true
}

// ---------------------------------------------------------------------
// Paths
// ---------------------------------------------------------------------
/// The number of characters in front of the first slash.
pub open spec fn word_len(s: Seq<char>) -> int
    decreases s.len(),
{
    if s.len() == 0 || s[0] == '/' {
        0
    } else {
        1 + word_len(s.drop_first())
    }
}

/// The non-empty parts of a path.
pub open spec fn parts_of(s: Seq<char>) -> Seq<Seq<char>>
    decreases s.len(),
{
    if s.len() == 0 {
        Seq::empty()
    } else if s[0] == '/' {
        parts_of(s.drop_first())
    } else {
        proof {
            word_len_bounds(s);
        }
        seq![s.take(word_len(s))] + parts_of(s.skip(word_len(s)))
    }
}

/// A word is no longer than the text, and longer than nothing where it does
/// not start with a slash.
pub proof fn word_len_bounds(s: Seq<char>)
    ensures
        0 <= word_len(s) <= s.len(),
        s.len() > 0 && s[0] != '/' ==> word_len(s) > 0,
    decreases s.len(),
{
    if s.len() > 0 && s[0] != '/' {
        word_len_bounds(s.drop_first());
    }
}

/// The non-empty parts of a path.
pub fn path_parts(path: &str) -> (parts: Vec<String>)
    ensures
        texts(parts@) == parts_of(path@),
{
    let v = chars_of(path);
    let mut parts: Vec<String> = Vec::new();
    let mut i: usize = 0;
    assert(v@.skip(0) =~= v@);
    assert(texts(parts@) + parts_of(v@) =~= parts_of(v@));
    while i < v.len()
        invariant
            i <= v.len(),
            v@ == path@,
            texts(parts@) + parts_of(v@.skip(i as int)) == parts_of(v@),
        decreases v.len() - i,
    {
        let ghost rest = v@.skip(i as int);
        assert(rest[0] == v@[i as int]);
        if v[i] == '/' {
            assert(rest.drop_first() =~= v@.skip(i + 1));
            i += 1;
        } else {
            let start = i;
            proof {
                word_len_bounds(rest);
            }
            while i < v.len() && v[i] != '/'
                invariant
                    start <= i <= v.len(),
                    word_len(rest) == (i - start) + word_len(v@.skip(i as int)),
                decreases v.len() - i,
            {
                assert(v@.skip(i as int)[0] == v@[i as int]);
                assert(v@.skip(i as int).drop_first() =~= v@.skip(i + 1));
                i += 1;
            }
            proof {
                let t = v@.skip(i as int);
                if i < v@.len() {
                    assert(t[0] == v@[i as int]);
                }
                assert(word_len(t) == 0);
                assert(word_len(rest) == i - start);
                assert(rest.take(i - start) =~= v@.subrange(start as int, i as int));
                assert(rest.skip(i - start) =~= t);
            }
            let ghost before = texts(parts@);
            let word = string_of(&v[start..i]);
            parts.push(word);
            proof {
                assert(texts(parts@) =~= before.push(word@));
                let t = parts_of(v@.skip(i as int));
                assert(before + (seq![word@] + t) =~= texts(parts@) + t);
            }
        }
    }
    assert(v@.skip(i as int) =~= Seq::empty());
    assert(texts(parts@) =~= parts_of(path@));
    parts
}

/// Parts with slashes between them.
pub open spec fn joined_path(parts: Seq<Seq<char>>) -> Seq<char>
    decreases parts.len(),
{
    if parts.len() == 0 {
        Seq::empty()
    } else if parts.len() == 1 {
        parts[0]
    } else {
        joined_path(parts.drop_last()) + "/"@ + parts.last()
    }
}

/// Parts from `from` to `to` with slashes between them, behind `s`.
pub fn push_path(s: &mut String, parts: &Vec<String>, from: usize, to: usize)
    requires
        from <= to <= parts@.len(),
    ensures
        final(s)@ == old(s)@ + joined_path(texts(parts@).subrange(from as int, to as int)),
{
    let ghost all = texts(parts@);
    let mut i = from;
    assert(all.subrange(from as int, from as int) =~= Seq::empty());
    assert(s@ =~= old(s)@ + joined_path(all.subrange(from as int, from as int)));
    while i < to
        invariant
            from <= i <= to <= parts@.len(),
            all == texts(parts@),
            s@ == old(s)@ + joined_path(all.subrange(from as int, i as int)),
        decreases to - i,
    {
        if i > from {
            push_text(s, "/");
        }
        push_text(s, parts[i].as_str());
        proof {
            let next = all.subrange(from as int, i + 1);
            assert(next.drop_last() =~= all.subrange(from as int, i as int));
            assert(next.last() == parts@[i as int]@);
            if i == from {
                assert(joined_path(all.subrange(from as int, i as int)) =~= Seq::empty());
            }
            assert(s@ =~= old(s)@ + joined_path(next));
        }
        i += 1;
    }
}

/// The name at the end of a path on the host: its last part other than a
/// single dot, unless that leads upwards.
pub open spec fn last_name(parts: Seq<Seq<char>>) -> Option<Seq<char>>
    decreases parts.len(),
{
    if parts.len() == 0 {
        None
    } else if parts.last() == "."@ {
        last_name(parts.drop_last())
    } else if parts.last() == ".."@ {
        None
    } else {
        Some(parts.last())
    }
}

/// The name at the end of a path on the host.
pub fn host_name(path: &str) -> (r: Option<String>)
    ensures
        opt_text(r) == last_name(parts_of(path@)),
{
    let parts = path_parts(path);
    let ghost all = texts(parts@);
    let mut i = parts.len();
    assert(all.take(i as int) =~= all);
    while i > 0
        invariant
            i <= parts@.len(),
            all == texts(parts@),
            all == parts_of(path@),
            last_name(all) == last_name(all.take(i as int)),
        decreases i,
    {
        proof {
            let t = all.take(i as int);
            assert(t.last() == parts@[i - 1]@);
            assert(t.drop_last() =~= all.take(i - 1));
        }
        if same(parts[i - 1].as_str(), "..") {
            proof {
                reveal_strlit(".");
                reveal_strlit("..");
            }
            return None;
        }
        if !same(parts[i - 1].as_str(), ".") {
            return Some(parts[i - 1].clone());
        }
        i -= 1;
    }
    None
}

} // verus!
