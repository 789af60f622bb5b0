//! Presentation helpers: types, permissions, sizes, content sniffing and
//! name patterns.
use crate::buf::{get16, le16};
use crate::text::{dec, digit, is_utf8, push_numeral, push_text};
use vstd::prelude::*;
use vstd::utf8::{encode_utf8, valid_utf8};

verus! {

/// Bytes of a file that are looked at to tell its content type.
pub const SAMPLE_SIZE: usize = 4096;

// ---------------------------------------------------------------------
// Types and permissions
// ---------------------------------------------------------------------
/// The name of the type that a mode holds.
pub open spec fn kind_name(mode: u16) -> Seq<char> {
    let kind = mode & 0xf000;
    if kind == 0x4000 {
        "directory"@
    } else if kind == 0xa000 {
        "symlink"@
    } else if kind == 0x2000 {
        "character"@
    } else if kind == 0x6000 {
        "block"@
    } else if kind == 0x1000 {
        "fifo"@
    } else if kind == 0xc000 {
        "socket"@
    } else {
        "file"@
    }
}

/// The type of a node, in words.
pub fn file_type(mode: u16) -> (s: &'static str)
    ensures
        s@ == kind_name(mode),
{
    let kind = mode & 0xf000;
    if kind == 0x4000 {
        "directory"
    } else if kind == 0xa000 {
        "symlink"
    } else if kind == 0x2000 {
        "character"
    } else if kind == 0x6000 {
        "block"
    } else if kind == 0x1000 {
        "fifo"
    } else if kind == 0xc000 {
        "socket"
    } else {
        "file"
    }
}

/// The permission bits as four octal digits.
pub open spec fn octal(mode: u16) -> Seq<char> {
    seq![
        digit(mode as int / 512 % 8),
        digit(mode as int / 64 % 8),
        digit(mode as int / 8 % 8),
        digit(mode as int % 8),
    ]
}

/// The permission bits as four octal digits.
pub fn numeric_permissions(mode: u16) -> (s: String)
    ensures
        s@ == octal(mode),
{
    let mut s = String::new();
    push_numeral(&mut s, (mode / 512 % 8) as u64, 8);
    push_numeral(&mut s, (mode / 64 % 8) as u64, 8);
    push_numeral(&mut s, (mode / 8 % 8) as u64, 8);
    push_numeral(&mut s, (mode % 8) as u64, 8);
    assert(s@ =~= octal(mode));
    s
}

/// Whether the bit of the given weight is set.
pub open spec fn has(mode: u16, weight: u16) -> bool {
    mode as int / weight as int % 2 == 1
}

/// The three letters of one permission class, whose lowest bit has the given
/// weight; `special` is the weight of its special bit and `letter` what
/// stands for it.
pub open spec fn class_letters(mode: u16, weight: u16, special: u16, letter: char, upper: char) -> Seq<
    char,
> {
    seq![
        if has(mode, (4 * weight) as u16) {
            'r'
        } else {
            '-'
        },
        if has(mode, (2 * weight) as u16) {
            'w'
        } else {
            '-'
        },
        if has(mode, special) {
            if has(mode, weight) {
                letter
            } else {
                upper
            }
        } else if has(mode, weight) {
            'x'
        } else {
            '-'
        },
    ]
}

/// The permissions in the style of `ls -l`.
pub open spec fn symbolic(mode: u16) -> Seq<char> {
    seq![
        if mode & 0xf000 == 0x4000 {
            'd'
        } else if mode & 0xf000 == 0xa000 {
            'l'
        } else {
            '-'
        },
    ] + class_letters(mode, 64, 2048, 's', 'S') + class_letters(mode, 8, 1024, 's', 'S')
        + class_letters(mode, 1, 512, 't', 'T')
}

fn push_class(s: &mut String, mode: u16, weight: u16, special: u16, letter: char, upper: char)
    requires
        0 < weight <= 64,
        0 < special,
    ensures
        final(s)@ == old(s)@ + class_letters(mode, weight, special, letter, upper),
{
    s.push(
        if mode / (4 * weight) % 2 == 1 {
            'r'
        } else {
            '-'
        },
    );
    s.push(
        if mode / (2 * weight) % 2 == 1 {
            'w'
        } else {
            '-'
        },
    );
    s.push(
        if mode / special % 2 == 1 {
            if mode / weight % 2 == 1 {
                letter
            } else {
                upper
            }
        } else if mode / weight % 2 == 1 {
            'x'
        } else {
            '-'
        },
    );
    assert(s@ =~= old(s)@ + class_letters(mode, weight, special, letter, upper));
}

/// The permission bits as letters.
pub fn symbolic_permissions(mode: u16) -> (s: String)
    ensures
        s@ == symbolic(mode),
{
    let mut s = String::new();
    let kind = mode & 0xf000;
    s.push(
        if kind == 0x4000 {
            'd'
        } else if kind == 0xa000 {
            'l'
        } else {
            '-'
        },
    );
    push_class(&mut s, mode, 64, 2048, 's', 'S');
    push_class(&mut s, mode, 8, 1024, 's', 'S');
    push_class(&mut s, mode, 1, 512, 't', 'T');
    assert(s@ =~= symbolic(mode));
    s
}

// ---------------------------------------------------------------------
// Sizes
// ---------------------------------------------------------------------
/// `n / d` rounded to the nearest whole number, halves to the even one.
pub open spec fn nearest(n: int, d: int) -> int {
    let q = n / d;
    let r = n % d;
    if 2 * r > d || (2 * r == d && q % 2 == 1) {
        q + 1
    } else {
        q
    }
}

/// The spacing of the numbers with 53 significant bits around `n`.
pub open spec fn spacing(n: int) -> int
    decreases n,
{
    if n < 0x20_0000_0000_0000 {
        1
    } else {
        2 * spacing(n / 2)
    }
}

/// `n` rounded to 53 significant bits.
pub open spec fn in_53_bits(n: int) -> int {
    nearest(n, spacing(n)) * spacing(n)
}

/// The weight of the unit in which a size is shown, at most `limit` steps
/// up from `unit`.
pub open spec fn unit_steps(n: int, unit: int, limit: int) -> int
    decreases limit,
{
    if limit <= 0 || n < unit * 1024 {
        0
    } else {
        1 + unit_steps(n, unit * 1024, limit - 1)
    }
}

/// 1024 to the power `n`.
pub open spec fn kilo(n: int) -> int
    decreases n,
{
    if n <= 0 {
        1
    } else {
        1024 * kilo(n - 1)
    }
}

/// The name of a unit.
pub open spec fn unit_name(steps: int) -> Seq<char> {
    if steps == 1 {
        " KiB"@
    } else if steps == 2 {
        " MiB"@
    } else if steps == 3 {
        " GiB"@
    } else {
        " TiB"@
    }
}

/// A size for people: bytes below 1024, otherwise the largest unit that it
/// reaches, with one digit after the point. The size is taken with 53
/// significant bits and rounded to the nearest tenth, halves to the even one.
pub open spec fn shown_size(size: u64) -> Seq<char> {
    let n = in_53_bits(size as int);
    let steps = unit_steps(n, 1, 4);
    if steps == 0 {
        dec(size as int) + " B"@
    } else {
        let tenths = nearest(10 * n, kilo(steps));
        dec(tenths / 10) + "."@ + dec(tenths % 10) + unit_name(steps)
    }
}

fn nearest_of(n: u128, d: u128) -> (r: u128)
    requires
        0 < d <= 0x1000_0000_0000_0000,
        n <= 0xffff_ffff_ffff_ffff_ffff,
    ensures
        r == nearest(n as int, d as int),
        r <= n + 1,
{
    let q = n / d;
    let rem = n % d;
    assert(q <= n) by (nonlinear_arith)
        requires
            q == n / d,
            0 < d,
    ;
    if 2 * rem > d || (2 * rem == d && q % 2 == 1) {
        q + 1
    } else {
        q
    }
}

fn spacing_of(n: u64) -> (s: u128)
    ensures
        s == spacing(n as int),
        1 <= s <= 4096,
{
    let mut m: u64 = n;
    let mut s: u128 = 1;
    while m >= 0x20_0000_0000_0000
        invariant
            1 <= s <= 4096,
            m * s <= 0xffff_ffff_ffff_ffff,
            s * spacing(m as int) == spacing(n as int),
        decreases m,
    {
        proof {
            let k = s as int;
            assert(k < 2048) by (nonlinear_arith)
                requires
                    m * k <= 0xffff_ffff_ffff_ffff,
                    m >= 0x20_0000_0000_0000,
                    k >= 1,
            ;
            assert((m as int / 2) * (2 * k) <= m * k) by (nonlinear_arith)
                requires
                    k >= 1,
            ;
            assert(k * (2 * spacing(m as int / 2)) == (2 * k) * spacing(m as int / 2))
                by (nonlinear_arith);
        }
        m = m / 2;
        s = s * 2;
    }
    assert(s * 1 == s) by (nonlinear_arith);
    s
}

proof fn kilo_values()
    ensures
        kilo(0) == 1,
        kilo(1) == 0x400,
        kilo(2) == 0x10_0000,
        kilo(3) == 0x4000_0000,
        kilo(4) == 0x100_0000_0000,
{
    reveal_with_fuel(kilo, 6);
}

proof fn unit_steps_values(n: int)
    ensures
        unit_steps(n, 1, 4) == (if n < 0x400 {
            0int
        } else if n < 0x10_0000 {
            1
        } else if n < 0x4000_0000 {
            2
        } else if n < 0x100_0000_0000 {
            3
        } else {
            4
        }),
{
    reveal_with_fuel(unit_steps, 6);
}

/// A size for people to read.
pub fn human_size(size: u64) -> (s: String)
    ensures
        s@ == shown_size(size),
{
    let unit = spacing_of(size);
    let q = nearest_of(size as u128, unit);
    assert(q * unit <= 0x1_0000_0000_0000_0000 * 4096) by (nonlinear_arith)
        requires
            q <= 0x1_0000_0000_0000_0000,
            unit <= 4096,
    ;
    let n = q * unit;
    proof {
        kilo_values();
        unit_steps_values(n as int);
    }
    if n < 0x400 {
        let mut s = String::new();
        push_numeral(&mut s, size, 10);
        push_text(&mut s, " B");
        assert(s@ =~= dec(size as int) + " B"@);
        return s;
    }
    let (weight, name): (u128, &str) = if n < 0x10_0000 {
        (0x400, " KiB")
    } else if n < 0x4000_0000 {
        (0x10_0000, " MiB")
    } else if n < 0x100_0000_0000 {
        (0x4000_0000, " GiB")
    } else {
        (0x100_0000_0000, " TiB")
    };
    let tenths = nearest_of(10 * n, weight);
    proof {
        let m = 10 * n;
        assert(weight == 0x400 ==> m / weight as int == m / 0x400);
        assert(weight == 0x10_0000 ==> m / weight as int == m / 0x10_0000);
        assert(weight == 0x4000_0000 ==> m / weight as int == m / 0x4000_0000);
        assert(weight == 0x100_0000_0000 ==> m / weight as int == m / 0x100_0000_0000);
    }
    let whole = (tenths / 10) as u64;
    let mut s = String::new();
    push_numeral(&mut s, whole, 10);
    push_text(&mut s, ".");
    push_numeral(&mut s, (tenths % 10) as u64, 10);
    push_text(&mut s, name);
    assert(s@ =~= shown_size(size));
    s
}

// ---------------------------------------------------------------------
// Content types
// ---------------------------------------------------------------------
/// Whether the data starts with the given bytes.
pub open spec fn begins(data: Seq<u8>, with: Seq<u8>) -> bool {
    with.len() <= data.len() && data.take(with.len() as int) == with
}

/// Whether the data is text: valid UTF-8 without control characters other
/// than tab, line feed, carriage return and form feed.
pub open spec fn texty(data: Seq<u8>) -> bool {
    valid_utf8(data) && forall|i: int|
        0 <= i < data.len() ==> text_byte(#[trigger] data[i])
}

/// Whether a byte may occur in text.
pub open spec fn text_byte(b: u8) -> bool {
    b == 0x09 || b == 0x0a || b == 0x0d || b == 0x0c || 0x20 <= b <= 0x7e || b >= 0x80
}

/// The content type that the data looks like.
pub open spec fn content_type(data: Seq<u8>) -> Seq<char> {
    if begins(data, seq![0x7fu8, 0x45, 0x4c, 0x46]) {
        if data.len() > 4 && data[4] == 1 {
            "ELF 32-bit executable"@
        } else if data.len() > 4 && data[4] == 2 {
            "ELF 64-bit executable"@
        } else {
            "ELF executable"@
        }
    } else if begins(data, seq![0x50u8, 0x4b, 0x03, 0x04]) || begins(
        data,
        seq![0x50u8, 0x4b, 0x05, 0x06],
    ) {
        "ZIP archive (possibly APK/JAR)"@
    } else if begins(data, seq![0x64u8, 0x65, 0x78, 0x0a]) {
        "Dalvik DEX bytecode"@
    } else if begins(data, seq![0x41u8, 0x4e, 0x44, 0x52, 0x4f, 0x49, 0x44, 0x21]) {
        "Android boot image"@
    } else if begins(
        data,
        seq![
            0x53u8,
            0x51,
            0x4c,
            0x69,
            0x74,
            0x65,
            0x20,
            0x66,
            0x6f,
            0x72,
            0x6d,
            0x61,
            0x74,
            0x20,
            0x33,
            0x00,
        ],
    ) {
        "SQLite database"@
    } else if begins(data, seq![0x89u8, 0x50, 0x4e, 0x47, 0x0d, 0x0a, 0x1a, 0x0a]) {
        "PNG image"@
    } else if begins(data, seq![0xffu8, 0xd8, 0xff]) {
        "JPEG image"@
    } else if begins(data, seq![0x47u8, 0x49, 0x46, 0x38, 0x37, 0x61]) || begins(
        data,
        seq![0x47u8, 0x49, 0x46, 0x38, 0x39, 0x61],
    ) {
        "GIF image"@
    } else if begins(data, seq![0x52u8, 0x49, 0x46, 0x46]) && data.len() >= 12 && data.subrange(
        8,
        12,
    ) == seq![0x57u8, 0x45, 0x42, 0x50] {
        "WebP image"@
    } else if begins(data, seq![0x25u8, 0x50, 0x44, 0x46, 0x2d]) {
        "PDF document"@
    } else if begins(data, seq![0x1fu8, 0x8b]) {
        "gzip compressed data"@
    } else if begins(data, seq![0x28u8, 0xb5, 0x2f, 0xfd]) {
        "Zstandard compressed data"@
    } else if begins(data, seq![0xfdu8, 0x37, 0x7a, 0x58, 0x5a, 0x00]) {
        "XZ compressed data"@
    } else if begins(data, seq![0x42u8, 0x5a, 0x68]) {
        "bzip2 compressed data"@
    } else if begins(data, seq![0x04u8, 0x22, 0x4d, 0x18]) {
        "LZ4 compressed data"@
    } else if data.len() >= 1082 && le16(data, 1080) == 0xef53 {
        "ext4 filesystem image"@
    } else if begins(data, seq![0x7bu8, 0x0a]) || begins(data, seq![0x7bu8, 0x0d, 0x0a]) {
        "JSON text"@
    } else if begins(data, seq![0x3cu8, 0x3f, 0x78, 0x6d, 0x6c]) || begins(
        data,
        seq![0x3cu8, 0x78, 0x6d, 0x6c],
    ) {
        "XML text"@
    } else if texty(data) {
        "UTF-8 text"@
    } else {
        "binary data"@
    }
}

fn starts(data: &[u8], with: &[u8]) -> (b: bool)
    ensures
        b == begins(data@, with@),
{
    if with.len() > data.len() {
        return false;
    }
    assert(data@.take(with@.len() as int) =~= data@.subrange(0, with@.len() as int));
    crate::text::same_bytes(&data[0..with.len()], with)
}

fn is_text(data: &[u8]) -> (b: bool)
    ensures
        b == texty(data@),
{
    if !is_utf8(data) {
        return false;
    }
    let mut i: usize = 0;
    while i < data.len()
        invariant
            i <= data.len(),
            forall|k: int| 0 <= k < i ==> text_byte(#[trigger] data@[k]),
        decreases data.len() - i,
    {
        let b = data[i];
        if !(b == 0x09 || b == 0x0a || b == 0x0d || b == 0x0c || (0x20 <= b && b <= 0x7e) || b
            >= 0x80) {
            assert(!text_byte(data@[i as int]));
            return false;
        }
        i += 1;
    }
    true
}

/// The container formats and executables.
fn binary_type(data: &[u8]) -> (r: Option<&'static str>)
    ensures
        match r {
            Some(s) => s@ == content_type(data@),
            None => {
                &&& !begins(data@, seq![0x7fu8, 0x45, 0x4c, 0x46])
                &&& !begins(data@, seq![0x50u8, 0x4b, 0x03, 0x04])
                &&& !begins(data@, seq![0x50u8, 0x4b, 0x05, 0x06])
                &&& !begins(data@, seq![0x64u8, 0x65, 0x78, 0x0a])
                &&& !begins(data@, seq![0x41u8, 0x4e, 0x44, 0x52, 0x4f, 0x49, 0x44, 0x21])
                &&& !begins(
                    data@,
                    seq![
                        0x53u8,
                        0x51,
                        0x4c,
                        0x69,
                        0x74,
                        0x65,
                        0x20,
                        0x66,
                        0x6f,
                        0x72,
                        0x6d,
                        0x61,
                        0x74,
                        0x20,
                        0x33,
                        0x00,
                    ],
                )
            },
        },
{
    let elf: [u8; 4] = [0x7f, 0x45, 0x4c, 0x46];
    assert(elf@ =~= seq![0x7fu8, 0x45, 0x4c, 0x46]);
    if starts(data, &elf) {
        if data.len() > 4 && data[4] == 1 {
            return Some("ELF 32-bit executable");
        } else if data.len() > 4 && data[4] == 2 {
            return Some("ELF 64-bit executable");
        } else {
            return Some("ELF executable");
        }
    }
    let zip: [u8; 4] = [0x50, 0x4b, 0x03, 0x04];
    assert(zip@ =~= seq![0x50u8, 0x4b, 0x03, 0x04]);
    let empty_zip: [u8; 4] = [0x50, 0x4b, 0x05, 0x06];
    assert(empty_zip@ =~= seq![0x50u8, 0x4b, 0x05, 0x06]);
    if starts(data, &zip) || starts(data, &empty_zip) {
        return Some("ZIP archive (possibly APK/JAR)");
    }
    let dex: [u8; 4] = [0x64, 0x65, 0x78, 0x0a];
    assert(dex@ =~= seq![0x64u8, 0x65, 0x78, 0x0a]);
    if starts(data, &dex) {
        return Some("Dalvik DEX bytecode");
    }
    let boot: [u8; 8] = [0x41, 0x4e, 0x44, 0x52, 0x4f, 0x49, 0x44, 0x21];
    assert(boot@ =~= seq![0x41u8, 0x4e, 0x44, 0x52, 0x4f, 0x49, 0x44, 0x21]);
    if starts(data, &boot) {
        return Some("Android boot image");
    }
    let sqlite: [u8; 16] = [
        0x53,
        0x51,
        0x4c,
        0x69,
        0x74,
        0x65,
        0x20,
        0x66,
        0x6f,
        0x72,
        0x6d,
        0x61,
        0x74,
        0x20,
        0x33,
        0x00,
    ];
    assert(sqlite@ =~= seq![
        0x53u8,
        0x51,
        0x4c,
        0x69,
        0x74,
        0x65,
        0x20,
        0x66,
        0x6f,
        0x72,
        0x6d,
        0x61,
        0x74,
        0x20,
        0x33,
        0x00,
    ]);
    if starts(data, &sqlite) {
        return Some("SQLite database");
    }
    None
}

/// The image formats and documents.
fn picture_type(data: &[u8]) -> (r: Option<&'static str>)
    ensures
        match r {
            Some(s) => s@ == (if begins(
                data@,
                seq![0x89u8, 0x50, 0x4e, 0x47, 0x0d, 0x0a, 0x1a, 0x0a],
            ) {
                "PNG image"@
            } else if begins(data@, seq![0xffu8, 0xd8, 0xff]) {
                "JPEG image"@
            } else if begins(data@, seq![0x47u8, 0x49, 0x46, 0x38, 0x37, 0x61]) || begins(
                data@,
                seq![0x47u8, 0x49, 0x46, 0x38, 0x39, 0x61],
            ) {
                "GIF image"@
            } else if begins(data@, seq![0x52u8, 0x49, 0x46, 0x46]) && data@.len() >= 12
                && data@.subrange(8, 12) == seq![0x57u8, 0x45, 0x42, 0x50] {
                "WebP image"@
            } else {
                "PDF document"@
            }) && (begins(data@, seq![0x89u8, 0x50, 0x4e, 0x47, 0x0d, 0x0a, 0x1a, 0x0a]) || begins(
                data@,
                seq![0xffu8, 0xd8, 0xff],
            ) || begins(data@, seq![0x47u8, 0x49, 0x46, 0x38, 0x37, 0x61]) || begins(
                data@,
                seq![0x47u8, 0x49, 0x46, 0x38, 0x39, 0x61],
            ) || (begins(data@, seq![0x52u8, 0x49, 0x46, 0x46]) && data@.len() >= 12
                && data@.subrange(8, 12) == seq![0x57u8, 0x45, 0x42, 0x50]) || begins(
                data@,
                seq![0x25u8, 0x50, 0x44, 0x46, 0x2d],
            )),
            None => {
                &&& !begins(data@, seq![0x89u8, 0x50, 0x4e, 0x47, 0x0d, 0x0a, 0x1a, 0x0a])
                &&& !begins(data@, seq![0xffu8, 0xd8, 0xff])
                &&& !begins(data@, seq![0x47u8, 0x49, 0x46, 0x38, 0x37, 0x61])
                &&& !begins(data@, seq![0x47u8, 0x49, 0x46, 0x38, 0x39, 0x61])
                &&& !(begins(data@, seq![0x52u8, 0x49, 0x46, 0x46]) && data@.len() >= 12
                    && data@.subrange(8, 12) == seq![0x57u8, 0x45, 0x42, 0x50])
                &&& !begins(data@, seq![0x25u8, 0x50, 0x44, 0x46, 0x2d])
            },
        },
{
    let png: [u8; 8] = [0x89, 0x50, 0x4e, 0x47, 0x0d, 0x0a, 0x1a, 0x0a];
    assert(png@ =~= seq![0x89u8, 0x50, 0x4e, 0x47, 0x0d, 0x0a, 0x1a, 0x0a]);
    if starts(data, &png) {
        return Some("PNG image");
    }
    let jpeg: [u8; 3] = [0xff, 0xd8, 0xff];
    assert(jpeg@ =~= seq![0xffu8, 0xd8, 0xff]);
    if starts(data, &jpeg) {
        return Some("JPEG image");
    }
    let gif87: [u8; 6] = [0x47, 0x49, 0x46, 0x38, 0x37, 0x61];
    assert(gif87@ =~= seq![0x47u8, 0x49, 0x46, 0x38, 0x37, 0x61]);
    let gif89: [u8; 6] = [0x47, 0x49, 0x46, 0x38, 0x39, 0x61];
    assert(gif89@ =~= seq![0x47u8, 0x49, 0x46, 0x38, 0x39, 0x61]);
    if starts(data, &gif87) || starts(data, &gif89) {
        return Some("GIF image");
    }
    let riff: [u8; 4] = [0x52, 0x49, 0x46, 0x46];
    assert(riff@ =~= seq![0x52u8, 0x49, 0x46, 0x46]);
    let webp: [u8; 4] = [0x57, 0x45, 0x42, 0x50];
    assert(webp@ =~= seq![0x57u8, 0x45, 0x42, 0x50]);
    if starts(data, &riff) && data.len() >= 12 && crate::text::same_bytes(&data[8..12], &webp) {
        return Some("WebP image");
    }
    let pdf: [u8; 5] = [0x25, 0x50, 0x44, 0x46, 0x2d];
    assert(pdf@ =~= seq![0x25u8, 0x50, 0x44, 0x46, 0x2d]);
    if starts(data, &pdf) {
        return Some("PDF document");
    }
    None
}

/// Content type by signature.
pub fn detect_content_type(data: &[u8]) -> (s: String)
    ensures
        s@ == content_type(data@),
{
    match binary_type(data) {
        Some(s) => {
            return s.to_owned();
        },
        None => {},
    }
    match picture_type(data) {
        Some(s) => {
            return s.to_owned();
        },
        None => {},
    }
    let gzip: [u8; 2] = [0x1f, 0x8b];
    assert(gzip@ =~= seq![0x1fu8, 0x8b]);
    let zstd: [u8; 4] = [0x28, 0xb5, 0x2f, 0xfd];
    assert(zstd@ =~= seq![0x28u8, 0xb5, 0x2f, 0xfd]);
    let xz: [u8; 6] = [0xfd, 0x37, 0x7a, 0x58, 0x5a, 0x00];
    assert(xz@ =~= seq![0xfdu8, 0x37, 0x7a, 0x58, 0x5a, 0x00]);
    let bzip2: [u8; 3] = [0x42, 0x5a, 0x68];
    assert(bzip2@ =~= seq![0x42u8, 0x5a, 0x68]);
    let lz4: [u8; 4] = [0x04, 0x22, 0x4d, 0x18];
    assert(lz4@ =~= seq![0x04u8, 0x22, 0x4d, 0x18]);
    let json: [u8; 2] = [0x7b, 0x0a];
    assert(json@ =~= seq![0x7bu8, 0x0a]);
    let json_crlf: [u8; 3] = [0x7b, 0x0d, 0x0a];
    assert(json_crlf@ =~= seq![0x7bu8, 0x0d, 0x0a]);
    let xml: [u8; 5] = [0x3c, 0x3f, 0x78, 0x6d, 0x6c];
    assert(xml@ =~= seq![0x3cu8, 0x3f, 0x78, 0x6d, 0x6c]);
    let bare_xml: [u8; 4] = [0x3c, 0x78, 0x6d, 0x6c];
    assert(bare_xml@ =~= seq![0x3cu8, 0x78, 0x6d, 0x6c]);
    let name = if starts(data, &gzip) {
        "gzip compressed data"
    } else if starts(data, &zstd) {
        "Zstandard compressed data"
    } else if starts(data, &xz) {
        "XZ compressed data"
    } else if starts(data, &bzip2) {
        "bzip2 compressed data"
    } else if starts(data, &lz4) {
        "LZ4 compressed data"
    } else if data.len() >= 1082 && get16(data, 1080) == 0xef53 {
        "ext4 filesystem image"
    } else if starts(data, &json) || starts(data, &json_crlf) {
        "JSON text"
    } else if starts(data, &xml) || starts(data, &bare_xml) {
        "XML text"
    } else if is_text(data) {
        "UTF-8 text"
    } else {
        "binary data"
    };
    name.to_owned()
}

/// How much of a file is looked at to tell what it holds.
pub fn sample_size() -> (n: usize)
    ensures
        n == SAMPLE_SIZE,
{
    SAMPLE_SIZE
}

// ---------------------------------------------------------------------
// Name patterns
// ---------------------------------------------------------------------
/// Whether the name matches the pattern: `*` stands for any bytes, `?` for
/// one, every other byte for itself.
pub open spec fn glob(name: Seq<u8>, pattern: Seq<u8>) -> bool
    decreases pattern.len(), name.len(),
{
    if pattern.len() == 0 {
        name.len() == 0
    } else if pattern[0] == 42 {
        glob(name, pattern.drop_first()) || (name.len() > 0 && glob(name.drop_first(), pattern))
    } else {
        name.len() > 0 && fits(name[0], pattern[0]) && glob(name.drop_first(), pattern.drop_first())
    }
}

/// Whether a byte matches a pattern byte other than `*`.
pub open spec fn fits(byte: u8, pattern: u8) -> bool {
    pattern == 63 || pattern == byte
}

/// What a `*` matches from `j` on, it matches from any earlier place on.
proof fn star_reaches_back(name: Seq<u8>, pattern: Seq<u8>, i: int, j: int)
    requires
        pattern.len() > 0,
        pattern[0] == 42,
        0 <= i <= j <= name.len(),
        glob(name.skip(j), pattern),
    ensures
        glob(name.skip(i), pattern),
    decreases j - i,
{
    if i < j {
        star_reaches_back(name, pattern, i + 1, j);
        assert(name.skip(i).drop_first() =~= name.skip(i + 1));
    }
}

/// Where a `*` matches, what follows it matches from some place on.
proof fn star_stops(name: Seq<u8>, pattern: Seq<u8>, i: int) -> (j: int)
    requires
        pattern.len() > 0,
        pattern[0] == 42,
        0 <= i <= name.len(),
        glob(name.skip(i), pattern),
    ensures
        i <= j <= name.len(),
        glob(name.skip(j), pattern.drop_first()),
    decreases name.len() - i,
{
    if glob(name.skip(i), pattern.drop_first()) {
        i
    } else {
        assert(name.skip(i).drop_first() =~= name.skip(i + 1));
        star_stops(name, pattern, i + 1)
    }
}

/// A part of the pattern without `*` takes exactly as many bytes.
proof fn plain_part(name: Seq<u8>, pattern: Seq<u8>, i: int, p: int, q: int)
    requires
        0 <= i <= name.len(),
        0 <= p <= q <= pattern.len(),
        forall|k: int| p <= k < q ==> pattern[k] != 42,
        glob(name.skip(i), pattern.skip(p)),
    ensures
        i + (q - p) <= name.len(),
        glob(name.skip(i + (q - p)), pattern.skip(q)),
    decreases q - p,
{
    if p < q {
        assert(pattern.skip(p)[0] == pattern[p]);
        assert(name.skip(i).drop_first() =~= name.skip(i + 1));
        assert(pattern.skip(p).drop_first() =~= pattern.skip(p + 1));
        plain_part(name, pattern, i + 1, p + 1, q);
    }
}

/// A later start of the last `*` gives nothing that the part behind it, once
/// matched, does not give as well.
proof fn later_star_is_needless(name: Seq<u8>, pattern: Seq<u8>, m: int, s: int, p: int)
    requires
        0 <= m <= name.len(),
        0 <= s < p <= pattern.len(),
        pattern[s] == 42,
        forall|k: int| s < k < p ==> pattern[k] != 42,
        m + (p - s - 1) <= name.len(),
        m < name.len(),
        glob(name.skip(m + 1), pattern.skip(s)),
    ensures
        m + (p - s - 1) < name.len(),
        p < pattern.len() && pattern[p] == 42 ==> glob(
            name.skip(m + (p - s - 1)),
            pattern.skip(p),
        ),
{
    let j = star_stops(name, pattern.skip(s), m + 1);
    assert(pattern.skip(s).drop_first() =~= pattern.skip(s + 1));
    plain_part(name, pattern, j, s + 1, p);
    if p < pattern.len() && pattern[p] == 42 {
        assert(pattern.skip(p)[0] == 42);
        star_reaches_back(name, pattern.skip(p), m + (p - s - 1), j + (p - s - 1));
    }
}

/// A pattern of `*` alone is what the empty rest of a name matches.
proof fn empty_matches_stars(pattern: Seq<u8>)
    ensures
        glob(Seq::empty(), pattern) == (forall|k: int| 0 <= k < pattern.len() ==> pattern[k] == 42),
    decreases pattern.len(),
{
    if pattern.len() > 0 {
        let rest = pattern.drop_first();
        empty_matches_stars(rest);
        assert(forall|k: int| 0 <= k < rest.len() ==> rest[k] == pattern[k + 1]);
        if pattern[0] == 42 && (forall|k: int| 0 <= k < rest.len() ==> rest[k] == 42) {
            assert forall|k: int| 0 <= k < pattern.len() implies pattern[k] == 42 by {
                if k > 0 {
                    assert(rest[k - 1] == 42);
                }
            }
        }
        if forall|k: int| 0 <= k < pattern.len() ==> pattern[k] == 42 {
            assert forall|k: int| 0 <= k < rest.len() implies rest[k] == 42 by {
                assert(pattern[k + 1] == 42);
            }
        }
    }
}

/// Name pattern with `*` and `?`, byte by byte.
pub fn matches_pattern(name: &str, pattern: &str) -> (b: bool)
    ensures
        b == glob(encode_utf8(name@), encode_utf8(pattern@)),
{
    let n = name.as_bytes();
    let p = pattern.as_bytes();
    let mut ni: usize = 0;
    let mut pi: usize = 0;
    let mut star: Option<usize> = None;
    let mut taken: usize = 0;
    assert(n@.skip(0) =~= n@);
    assert(p@.skip(0) =~= p@);
    while ni < n.len()
        invariant
            n@ == encode_utf8(name@),
            p@ == encode_utf8(pattern@),
            ni <= n@.len(),
            pi <= p@.len(),
            taken <= ni,
            match star {
                None => taken == 0 && glob(n@, p@) == glob(n@.skip(ni as int), p@.skip(pi as int)),
                Some(s) => {
                    &&& s < pi
                    &&& p@[s as int] == 42
                    &&& forall|k: int| s < k < pi ==> p@[k] != 42
                    &&& ni == taken + (pi - s - 1)
                    &&& glob(n@, p@) == (glob(n@.skip(ni as int), p@.skip(pi as int)) || (taken
                        < n@.len() && glob(n@.skip(taken + 1), p@.skip(s as int))))
                },
            },
        decreases n@.len() - taken, p@.len() - pi,
    {
        proof {
            if pi < p@.len() {
                assert(p@.skip(pi as int)[0] == p@[pi as int]);
                assert(p@.skip(pi as int).drop_first() =~= p@.skip(pi + 1));
            }
            assert(n@.skip(ni as int)[0] == n@[ni as int]);
            assert(n@.skip(ni as int).drop_first() =~= n@.skip(ni + 1));
        }
        if pi < p.len() && p[pi] == 42 {
            proof {
                if let Some(s) = star {
                    if taken < n@.len() && glob(n@.skip(taken + 1), p@.skip(s as int)) {
                        later_star_is_needless(n@, p@, taken as int, s as int, pi as int);
                    }
                }
            }
            star = Some(pi);
            pi += 1;
            taken = ni;
        } else if pi < p.len() && (p[pi] == 63 || p[pi] == n[ni]) {
            ni += 1;
            pi += 1;
        } else {
            match star {
                Some(s) => {
                    proof {
                        assert(!glob(n@.skip(ni as int), p@.skip(pi as int)));
                        let from = n@.skip(taken + 1);
                        assert(p@.skip(s as int)[0] == 42);
                        assert(p@.skip(s as int).drop_first() =~= p@.skip(s + 1));
                        if from.len() > 0 {
                            assert(from.drop_first() =~= n@.skip(taken + 2));
                        }
                    }
                    pi = s + 1;
                    taken += 1;
                    ni = taken;
                },
                None => {
                    return false;
                },
            }
        }
    }
    proof {
        if let Some(s) = star {
            if taken < n@.len() && glob(n@.skip(taken + 1), p@.skip(s as int)) {
                later_star_is_needless(n@, p@, taken as int, s as int, pi as int);
            }
        }
        assert(n@.skip(ni as int) =~= Seq::empty());
        empty_matches_stars(p@.skip(pi as int));
    }
    let ghost rest = p@.skip(pi as int);
    let ghost start = pi as int;
    while pi < p.len() && p[pi] == 42
        invariant
            0 <= start <= pi <= p@.len(),
            rest == p@.skip(start),
            forall|k: int| 0 <= k < pi - start ==> rest[k] == 42,
        decreases p@.len() - pi,
    {
        assert(rest[pi - start] == p@[pi as int]);
        pi += 1;
    }
    assert(pi < p@.len() ==> rest[pi - start] == p@[pi as int]);
    pi == p.len()
}

} // verus!
