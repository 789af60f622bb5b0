//! The arguments of the write command.
use super::edit::{no_metadata, Action, ActionView, MetaView, Metadata};
use crate::error::{fail, Error, Fault};
use crate::fs::erofs::codec::{lower, to_lower, Algo};
use crate::math::ceil_div;
use crate::text::{chars_of, opt_text, push_text, same, string_of, texts, with_text};
use vstd::prelude::*;

verus! {

// ---------------------------------------------------------------------
// Numbers
// ---------------------------------------------------------------------
/// What a digit is worth.
pub open spec fn digit_value(c: char) -> int {
    c as int - '0' as int
}

/// The number written by the digits, in a base up to ten.
pub open spec fn digits_value(s: Seq<char>, base: int) -> Option<int>
    decreases s.len(),
{
    if s.len() == 0 {
        Some(0)
    } else {
        match digits_value(s.drop_last(), base) {
            None => None,
            Some(n) => if 0 <= digit_value(s.last()) < base {
                Some(n * base + digit_value(s.last()))
            } else {
                None
            },
        }
    }
}

/// The number that a text gives: digits, perhaps behind a plus sign, with a
/// value up to `max`.
pub open spec fn number_of(s: Seq<char>, base: int, max: int) -> Option<int> {
    let digits = if s.len() > 1 && s[0] == '+' {
        s.drop_first()
    } else {
        s
    };
    if digits.len() == 0 {
        None
    } else {
        match digits_value(digits, base) {
            None => None,
            Some(n) => if n <= max {
                Some(n)
            } else {
                None
            },
        }
    }
}

proof fn longer_is_no_number(s: Seq<char>, base: int, i: int)
    requires
        0 <= i <= s.len(),
        base > 0,
    ensures
        digits_value(s.take(i), base) is None ==> digits_value(s, base) is None,
        match (digits_value(s.take(i), base), digits_value(s, base)) {
            (Some(a), Some(b)) => 0 <= a <= b,
            _ => true,
        },
    decreases s.len(),
{
    if i == s.len() {
        assert(s.take(i) =~= s);
        if s.len() > 0 {
            longer_is_no_number(s.drop_last(), base, i - 1);
            if let Some(n) = digits_value(s.drop_last(), base) {
                assert(n * base >= 0) by (nonlinear_arith)
                    requires
                        n >= 0,
                        base > 0,
                ;
            }
        }
    } else {
        longer_is_no_number(s.drop_last(), base, i);
        assert(s.drop_last().take(i) =~= s.take(i));
        if let Some(n) = digits_value(s.drop_last(), base) {
            if let Some(a) = digits_value(s.take(i), base) {
                assert(n * base >= n) by (nonlinear_arith)
                    requires
                        n >= 0,
                        base > 0,
                ;
            }
        }
    }
}

/// Reads a number up to `max`.
pub fn parse_number(s: &str, base: u8, max: u64) -> (r: Option<u64>)
    requires
        2 <= base <= 10,
    ensures
        match r {
            Some(n) => number_of(s@, base as int, max as int) == Some(n as int),
            None => number_of(s@, base as int, max as int) is None,
        },
{
    let v = chars_of(s);
    let start: usize = if v.len() > 1 && v[0] == '+' {
        1
    } else {
        0
    };
    let ghost digits = v@.skip(start as int);
    proof {
        assert(v@.skip(0) =~= v@);
        assert(v@.len() > 0 ==> v@.skip(1) =~= v@.drop_first());
    }
    if v.len() == start {
        return None;
    }
    let mut n: u64 = 0;
    let mut i: usize = start;
    assert(digits.take(0) =~= Seq::empty());
    while i < v.len()
        invariant
            start <= i <= v@.len(),
            v@ == s@,
            2 <= base <= 10,
            n <= max,
            digits == v@.skip(start as int),
            digits_value(digits.take(i - start), base as int) == Some(n as int),
            number_of(s@, base as int, max as int) == match digits_value(digits, base as int) {
                None => None::<int>,
                Some(n) => if n <= max {
                    Some(n)
                } else {
                    None
                },
            },
        decreases v@.len() - i,
    {
        let ch = v[i];
        proof {
            let t = digits.take(i - start + 1);
            assert(t.drop_last() =~= digits.take(i - start));
            assert(t.last() == v@[i as int]);
            longer_is_no_number(digits, base as int, i - start + 1);
        }
        if ch < '0' || ch > '9' {
            return None;
        }
        let c = ch as u32;
        if c >= 48 + base as u32 {
            return None;
        }
        assert(0 <= n * base <= u64::MAX * 10) by (nonlinear_arith)
            requires
                0 <= n <= u64::MAX,
                0 <= base <= 10,
        ;
        let next = n as u128 * base as u128 + (c - 48) as u128;
        if next > max as u128 {
            return None;
        }
        n = next as u64;
        i += 1;
    }
    assert(digits.take(i - start) =~= digits);
    Some(n)
}

/// The text without the prefixes `0o`.
pub open spec fn without_octal(s: Seq<char>) -> Seq<char>
    decreases s.len(),
{
    if s.len() >= 2 && s[0] == '0' && s[1] == 'o' {
        without_octal(s.skip(2))
    } else {
        s
    }
}

/// The permissions that a text gives.
pub open spec fn mode_of(s: Seq<char>) -> Result<u16, Fault> {
    match number_of(without_octal(s), 8, 0xffff) {
        Some(n) => Ok(n as u16),
        None => fail("invalid mode: "@ + s),
    }
}

/// Reads permissions in octal.
pub fn parse_mode(value: &str) -> (r: Result<u16, Error>)
    ensures
        match r {
            Ok(n) => mode_of(value@) == Ok::<u16, Fault>(n),
            Err(e) => mode_of(value@) == Err::<u16, Fault>(e@),
        },
{
    let v = chars_of(value);
    let mut i: usize = 0;
    assert(v@.skip(0) =~= v@);
    while v.len() - i >= 2 && v[i] == '0' && v[i + 1] == 'o'
        invariant
            i <= v@.len(),
            v@ == value@,
            without_octal(value@) == without_octal(v@.skip(i as int)),
        decreases v@.len() - i,
    {
        assert(v@.skip(i as int)[0] == v@[i as int]);
        assert(v@.skip(i as int)[1] == v@[i + 1]);
        assert(v@.skip(i as int).skip(2) =~= v@.skip(i + 2));
        i += 2;
    }
    proof {
        let t = v@.skip(i as int);
        if t.len() >= 2 {
            assert(t[0] == v@[i as int]);
            assert(t[1] == v@[i + 1]);
        }
        assert(v@.subrange(i as int, v@.len() as int) =~= t);
    }
    let rest = string_of(&v[i..v.len()]);
    match parse_number(rest.as_str(), 8, 0xffff) {
        Some(n) => Ok(n as u16),
        None => {
            let mut s: String = "invalid mode: ".to_owned();
            push_text(&mut s, value);
            Err(Error::Invalid(s))
        },
    }
}

/// The suffix of a size, and the rest: kibibytes, mebibytes and gibibytes
/// are worth 0, 1 and 1024 here.
pub open spec fn size_parts(s: Seq<char>) -> (Seq<char>, int) {
    if s.len() > 0 && (s.last() == 'K' || s.last() == 'k') {
        (s.drop_last(), 0)
    } else if s.len() > 0 && (s.last() == 'M' || s.last() == 'm') {
        (s.drop_last(), 1)
    } else if s.len() > 0 && (s.last() == 'G' || s.last() == 'g') {
        (s.drop_last(), 1024)
    } else {
        (s, 1)
    }
}

/// The size in mebibytes that a text gives. Kibibytes are rounded up to
/// whole mebibytes.
pub open spec fn reserve_of(s: Seq<char>) -> Result<u64, Fault> {
    let (digits, factor) = size_parts(s);
    match number_of(digits, 10, u64::MAX as int) {
        None => fail("invalid reserve size: "@ + s + " (try 64M)"@),
        Some(n) => Ok(
            if factor == 0 {
                ceil_div(n, 1024) as u64
            } else if n * factor > u64::MAX {
                u64::MAX
            } else {
                (n * factor) as u64
            },
        ),
    }
}

/// Reads a size: a bare number or one with the suffix K, M or G, in
/// mebibytes.
pub fn parse_reserve(value: &str) -> (r: Result<u64, Error>)
    ensures
        match r {
            Ok(n) => reserve_of(value@) == Ok::<u64, Fault>(n),
            Err(e) => reserve_of(value@) == Err::<u64, Fault>(e@),
        },
{
    let v = chars_of(value);
    let mut factor: u64 = 1;
    let mut end = v.len();
    if v.len() > 0 {
        let c = v[v.len() - 1];
        if c == 'K' || c == 'k' {
            factor = 0;
            end = v.len() - 1;
        } else if c == 'M' || c == 'm' {
            end = v.len() - 1;
        } else if c == 'G' || c == 'g' {
            factor = 1024;
            end = v.len() - 1;
        }
    }
    proof {
        assert(v@.subrange(0, v@.len() as int) =~= v@);
        assert(v@.len() > 0 ==> v@.subrange(0, v@.len() - 1) =~= v@.drop_last());
    }
    let digits = string_of(&v[0..end]);
    match parse_number(digits.as_str(), 10, u64::MAX) {
        None => Err(Error::Invalid(with_text("invalid reserve size: ", value, " (try 64M)"))),
        Some(n) => {
            if factor == 0 {
                Ok(n / 1024 + if n % 1024 == 0 {
                    0
                } else {
                    1
                })
            } else {
                match n.checked_mul(factor) {
                    Some(m) => Ok(m),
                    None => Ok(u64::MAX),
                }
            }
        },
    }
}

/// The number of characters in front of the first colon, if there is one.
pub open spec fn colon_at(s: Seq<char>, i: int) -> Option<int>
    decreases s.len() - i,
{
    if i >= s.len() {
        None
    } else if s[i] == ':' {
        Some(i)
    } else {
        colon_at(s, i + 1)
    }
}

/// The numeric identifier of a user or a group.
pub open spec fn id_of(s: Seq<char>, complaint: Seq<char>) -> Result<u32, Fault> {
    match number_of(s, 10, u32::MAX as int) {
        Some(n) => Ok(n as u32),
        None => fail(complaint),
    }
}

/// The user and the group that a text gives.
pub open spec fn owner_of(s: Seq<char>) -> Result<(u32, u32), Fault> {
    match colon_at(s, 0) {
        None => fail("owner must be uid:gid"@),
        Some(k) => match id_of(s.take(k), "invalid uid"@) {
            Err(e) => Err(e),
            Ok(uid) => match id_of(s.skip(k + 1), "invalid gid"@) {
                Err(e) => Err(e),
                Ok(gid) => Ok((uid, gid)),
            },
        },
    }
}

fn parse_id(value: &str, complaint: &str) -> (r: Result<u32, Error>)
    ensures
        match r {
            Ok(n) => id_of(value@, complaint@) == Ok::<u32, Fault>(n),
            Err(e) => id_of(value@, complaint@) == Err::<u32, Fault>(e@),
        },
{
    match parse_number(value, 10, u32::MAX as u64) {
        Some(n) => Ok(n as u32),
        None => Err(Error::invalid(complaint)),
    }
}

/// Reads a user and a group with a colon between them.
pub fn parse_owner(value: &str) -> (r: Result<(u32, u32), Error>)
    ensures
        match r {
            Ok(n) => owner_of(value@) == Ok::<(u32, u32), Fault>(n),
            Err(e) => owner_of(value@) == Err::<(u32, u32), Fault>(e@),
        },
{
    let v = chars_of(value);
    let mut i: usize = 0;
    while i < v.len() && v[i] != ':'
        invariant
            i <= v@.len(),
            v@ == value@,
            colon_at(value@, 0) == colon_at(value@, i as int),
        decreases v@.len() - i,
    {
        i += 1;
    }
    if i == v.len() {
        return Err(Error::invalid("owner must be uid:gid"));
    }
    assert(v@.subrange(0, i as int) =~= value@.take(i as int));
    assert(v@.subrange(i + 1, v@.len() as int) =~= value@.skip(i + 1));
    let uid_text = string_of(&v[0..i]);
    let gid_text = string_of(&v[i + 1..v.len()]);
    let uid = match parse_id(uid_text.as_str(), "invalid uid") {
        Ok(n) => n,
        Err(e) => {
            return Err(e);
        },
    };
    match parse_id(gid_text.as_str(), "invalid gid") {
        Ok(gid) => Ok((uid, gid)),
        Err(e) => Err(e),
    }
}

// ---------------------------------------------------------------------
// Options
// ---------------------------------------------------------------------
/// The filesystem that `--convert-to` selects.
#[derive(Debug, Clone, Copy, PartialEq, Eq)]
pub enum FsTarget {
    Erofs,
    Ext4,
}

/// What the write command is asked to do.
pub struct Config {
    pub input: String,
    pub output: String,
    pub sparse_output: bool,
    pub shared_blocks: Option<bool>,
    /// Guaranteed free space in a rebuilt ext4 image, in mebibytes.
    pub reserve_mb: u64,
    /// Shrink ext4 output to the fewest block groups.
    pub compact: bool,
    /// Compression of EROFS output.
    pub compress: Algo,
    /// Whether the compression was asked for, as opposed to a default.
    pub compress_explicit: bool,
    /// Target of a pure conversion, which takes no file actions.
    pub convert_to: Option<FsTarget>,
    pub actions: Vec<Action>,
}

/// The mathematical counterpart of [`Config`].
#[verifier::ext_equal]
pub struct ConfigView {
    pub input: Seq<char>,
    pub output: Seq<char>,
    pub sparse_output: bool,
    pub shared_blocks: Option<bool>,
    pub reserve_mb: u64,
    pub compact: bool,
    pub compress: Algo,
    pub compress_explicit: bool,
    pub convert_to: Option<FsTarget>,
    pub actions: Seq<ActionView>,
}

/// The views of a sequence of actions.
pub open spec fn action_views(s: Seq<Action>) -> Seq<ActionView> {
    s.map_values(|a: Action| a@)
}

impl View for Config {
    type V = ConfigView;

    open spec fn view(&self) -> ConfigView {
        ConfigView {
            input: self.input@,
            output: self.output@,
            sparse_output: self.sparse_output,
            shared_blocks: self.shared_blocks,
            reserve_mb: self.reserve_mb,
            compact: self.compact,
            compress: self.compress,
            compress_explicit: self.compress_explicit,
            convert_to: self.convert_to,
            actions: action_views(self.actions@),
        }
    }
}

/// What the arguments read so far say.
pub struct Draft {
    pub positional: Vec<String>,
    pub input: Option<String>,
    pub output: Option<String>,
    pub sparse_output: bool,
    pub shared_blocks: Option<bool>,
    pub reserve_mb: Option<u64>,
    pub compact: bool,
    pub compress: Algo,
    pub compress_explicit: bool,
    pub convert_to: Option<FsTarget>,
    pub actions: Vec<Action>,
    /// Metadata given in front of the action that it is for.
    pub pending: Metadata,
}

/// The mathematical counterpart of [`Draft`].
#[verifier::ext_equal]
pub struct DraftView {
    pub positional: Seq<Seq<char>>,
    pub input: Option<Seq<char>>,
    pub output: Option<Seq<char>>,
    pub sparse_output: bool,
    pub shared_blocks: Option<bool>,
    pub reserve_mb: Option<u64>,
    pub compact: bool,
    pub compress: Algo,
    pub compress_explicit: bool,
    pub convert_to: Option<FsTarget>,
    pub actions: Seq<ActionView>,
    pub pending: MetaView,
}

impl View for Draft {
    type V = DraftView;

    open spec fn view(&self) -> DraftView {
        DraftView {
            positional: texts(self.positional@),
            input: opt_text(self.input),
            output: opt_text(self.output),
            sparse_output: self.sparse_output,
            shared_blocks: self.shared_blocks,
            reserve_mb: self.reserve_mb,
            compact: self.compact,
            compress: self.compress,
            compress_explicit: self.compress_explicit,
            convert_to: self.convert_to,
            actions: action_views(self.actions@),
            pending: self.pending@,
        }
    }
}

/// Nothing said yet.
pub open spec fn blank() -> DraftView {
    DraftView {
        positional: Seq::empty(),
        input: None,
        output: None,
        sparse_output: false,
        shared_blocks: None,
        reserve_mb: None,
        compact: false,
        compress: Algo::Off,
        compress_explicit: false,
        convert_to: None,
        actions: Seq::empty(),
        pending: no_metadata(),
    }
}

/// The argument at an index, or the complaint that it is missing.
pub open spec fn needed(args: Seq<Seq<char>>, i: int, complaint: Seq<char>) -> Result<
    Seq<char>,
    Fault,
> {
    if i < args.len() {
        Ok(args[i])
    } else {
        fail(complaint)
    }
}

fn need<'a>(args: &'a [String], i: usize, complaint: &str) -> (r: Result<&'a str, Error>)
    ensures
        match r {
            Ok(s) => i < args@.len() && needed(texts(args@), i as int, complaint@) == Ok::<
                Seq<char>,
                Fault,
            >(s@),
            Err(e) => i >= args@.len() && needed(texts(args@), i as int, complaint@) == Err::<
                Seq<char>,
                Fault,
            >(e@),
        },
{
    if i < args.len() {
        assert(texts(args@)[i as int] == args@[i as int]@);
        Ok(args[i].as_str())
    } else {
        Err(Error::invalid(complaint))
    }
}

/// The target that a value of `--convert-to` names.
pub open spec fn target_of(value: Seq<char>) -> Result<FsTarget, Fault> {
    let v = lower(value);
    if v == "erofs"@ {
        Ok(FsTarget::Erofs)
    } else if v == "ext4"@ {
        Ok(FsTarget::Ext4)
    } else {
        fail("invalid --convert-to value: "@ + v + " (use erofs or ext4)"@)
    }
}

fn parse_target(value: &str) -> (r: Result<FsTarget, Error>)
    ensures
        match r {
            Ok(n) => target_of(value@) == Ok::<FsTarget, Fault>(n),
            Err(e) => target_of(value@) == Err::<FsTarget, Fault>(e@),
        },
{
    let low = to_lower(value);
    if same(low.as_str(), "erofs") {
        Ok(FsTarget::Erofs)
    } else if same(low.as_str(), "ext4") {
        Ok(FsTarget::Ext4)
    } else {
        Err(
            Error::Invalid(
                with_text("invalid --convert-to value: ", low.as_str(), " (use erofs or ext4)"),
            ),
        )
    }
}

/// The answer that a value of `--shared-blocks` gives.
pub open spec fn answer_of(value: Seq<char>) -> Result<bool, Fault> {
    if value == "y"@ || value == "yes"@ || value == "true"@ {
        Ok(true)
    } else if value == "n"@ || value == "no"@ || value == "false"@ {
        Ok(false)
    } else {
        fail("invalid --shared-blocks value: "@ + value + " (use y/n)"@)
    }
}

fn parse_answer(value: &str) -> (r: Result<bool, Error>)
    ensures
        match r {
            Ok(n) => answer_of(value@) == Ok::<bool, Fault>(n),
            Err(e) => answer_of(value@) == Err::<bool, Fault>(e@),
        },
{
    if same(value, "y") || same(value, "yes") || same(value, "true") {
        Ok(true)
    } else if same(value, "n") || same(value, "no") || same(value, "false") {
        Ok(false)
    } else {
        Err(
            Error::Invalid(
                with_text("invalid --shared-blocks value: ", value, " (use y/n)"),
            ),
        )
    }
}

/// The options with one value each.
pub open spec fn is_value_option(o: Seq<char>) -> bool {
    o == "--compress"@ || o == "--convert-to"@ || o == "--reserve-mb"@ || o == "--reserve"@ || o
        == "--shared-blocks"@ || o == "--shader-blocks"@ || o == "--input"@ || o == "--output"@
}

/// The draft after an option with one value.
pub open spec fn with_value(d: DraftView, args: Seq<Seq<char>>, i: int) -> Result<DraftView, Fault> {
    let o = args[i];
    if o == "--compress"@ {
        match needed(args, i + 1, "--compress requires lz4, deflate or none"@) {
            Err(e) => Err(e),
            Ok(v) => match Algo::named(v) {
                Err(e) => Err(e),
                Ok(a) => Ok(DraftView { compress: a, compress_explicit: true, ..d }),
            },
        }
    } else if o == "--convert-to"@ {
        match needed(args, i + 1, "--convert-to requires erofs or ext4"@) {
            Err(e) => Err(e),
            Ok(v) => match target_of(v) {
                Err(e) => Err(e),
                Ok(t) => Ok(DraftView { convert_to: Some(t), ..d }),
            },
        }
    } else if o == "--reserve-mb"@ || o == "--reserve"@ {
        match needed(args, i + 1, "--reserve-mb requires a size like 64M"@) {
            Err(e) => Err(e),
            Ok(v) => match reserve_of(v) {
                Err(e) => Err(e),
                Ok(n) => Ok(DraftView { reserve_mb: Some(n), ..d }),
            },
        }
    } else if o == "--shared-blocks"@ || o == "--shader-blocks"@ {
        match needed(args, i + 1, "--shared-blocks requires y or n"@) {
            Err(e) => Err(e),
            Ok(v) => match answer_of(v) {
                Err(e) => Err(e),
                Ok(b) => Ok(DraftView { shared_blocks: Some(b), ..d }),
            },
        }
    } else if o == "--input"@ {
        match needed(args, i + 1, "--input requires a path"@) {
            Err(e) => Err(e),
            Ok(v) => Ok(DraftView { input: Some(v), ..d }),
        }
    } else {
        match needed(args, i + 1, "--output requires a path"@) {
            Err(e) => Err(e),
            Ok(v) => Ok(DraftView { output: Some(v), ..d }),
        }
    }
}

fn is_value(o: &str) -> (b: bool)
    ensures
        b == is_value_option(o@),
{
    same(o, "--compress") || same(o, "--convert-to") || same(o, "--reserve-mb") || same(
        o,
        "--reserve",
    ) || same(o, "--shared-blocks") || same(o, "--shader-blocks") || same(o, "--input") || same(
        o,
        "--output",
    )
}

fn take_value(d: &mut Draft, args: &[String], i: usize) -> (r: Result<(), Error>)
    requires
        i < args@.len(),
        i + 1 <= usize::MAX,
    ensures
        match with_value(old(d)@, texts(args@), i as int) {
            Ok(n) => r is Ok && final(d)@ == n && i + 1 < args@.len(),
            Err(e) => r is Err && r->Err_0@ == e,
        },
{
    let o = args[i].as_str();
    assert(texts(args@)[i as int] == args@[i as int]@);
    if same(o, "--compress") {
        let v = need(args, i + 1, "--compress requires lz4, deflate or none")?;
        d.compress = Algo::parse(v)?;
        d.compress_explicit = true;
    } else if same(o, "--convert-to") {
        let v = need(args, i + 1, "--convert-to requires erofs or ext4")?;
        d.convert_to = Some(parse_target(v)?);
    } else if same(o, "--reserve-mb") || same(o, "--reserve") {
        let v = need(args, i + 1, "--reserve-mb requires a size like 64M")?;
        d.reserve_mb = Some(parse_reserve(v)?);
    } else if same(o, "--shared-blocks") || same(o, "--shader-blocks") {
        let v = need(args, i + 1, "--shared-blocks requires y or n")?;
        d.shared_blocks = Some(parse_answer(v)?);
    } else if same(o, "--input") {
        let v = need(args, i + 1, "--input requires a path")?;
        d.input = Some(v.to_owned());
    } else {
        let v = need(args, i + 1, "--output requires a path")?;
        d.output = Some(v.to_owned());
    }
    Ok(())
}

/// The actions with two values each.
pub open spec fn is_pair_option(o: Seq<char>) -> bool {
    o == "--add"@ || o == "-A"@ || o == "--cp"@ || o == "-C"@ || o == "--mv"@ || o == "-M"@ || o
        == "--set-context"@ || o == "--set-mode"@ || o == "--set-owner"@
}

/// The draft with one more file action, which takes the pending metadata.
pub open spec fn with_file_action(d: DraftView, a: ActionView) -> DraftView {
    DraftView { actions: d.actions.push(a), pending: no_metadata(), ..d }
}

/// The draft after an action with two values.
pub open spec fn with_pair(d: DraftView, args: Seq<Seq<char>>, i: int) -> Result<DraftView, Fault> {
    let o = args[i];
    let metadata = d.pending;
    if o == "--set-context"@ {
        match needed(args, i + 2, "--set-context requires path and context"@) {
            Err(e) => Err(e),
            Ok(context) => Ok(
                DraftView {
                    actions: d.actions.push(
                        ActionView::SetContext { path: args[i + 1], context },
                    ),
                    ..d
                },
            ),
        }
    } else if o == "--set-mode"@ {
        match needed(args, i + 2, "--set-mode requires path and mode"@) {
            Err(e) => Err(e),
            Ok(v) => match mode_of(v) {
                Err(e) => Err(e),
                Ok(mode) => Ok(
                    DraftView {
                        actions: d.actions.push(ActionView::SetMode { path: args[i + 1], mode }),
                        ..d
                    },
                ),
            },
        }
    } else if o == "--set-owner"@ {
        match needed(args, i + 2, "--set-owner requires path and uid:gid"@) {
            Err(e) => Err(e),
            Ok(v) => match owner_of(v) {
                Err(e) => Err(e),
                Ok((uid, gid)) => Ok(
                    DraftView {
                        actions: d.actions.push(
                            ActionView::SetOwner { path: args[i + 1], uid, gid },
                        ),
                        ..d
                    },
                ),
            },
        }
    } else {
        let complaint = if o == "--add"@ {
            "--add requires source and destination"@
        } else {
            "action requires source and destination"@
        };
        match needed(args, i + 2, complaint) {
            Err(e) => Err(e),
            Ok(destination) => {
                let source = args[i + 1];
                Ok(
                    with_file_action(
                        d,
                        if o == "--add"@ || o == "-A"@ {
                            ActionView::Add { source, destination, metadata }
                        } else if o == "--cp"@ || o == "-C"@ {
                            ActionView::Copy { source, destination, metadata }
                        } else {
                            ActionView::Move { source, destination, metadata }
                        },
                    ),
                )
            },
        }
    }
}

fn is_pair(o: &str) -> (b: bool)
    ensures
        b == is_pair_option(o@),
{
    same(o, "--add") || same(o, "-A") || same(o, "--cp") || same(o, "-C") || same(o, "--mv")
        || same(o, "-M") || same(o, "--set-context") || same(o, "--set-mode") || same(
        o,
        "--set-owner",
    )
}

fn push_action(d: &mut Draft, a: Action)
    ensures
        final(d)@ == (DraftView { actions: old(d)@.actions.push(a@), ..old(d)@ }),
{
    let ghost before = action_views(d.actions@);
    d.actions.push(a);
    assert(action_views(d.actions@) =~= before.push(a@));
}

fn take_pair(d: &mut Draft, args: &[String], i: usize) -> (r: Result<(), Error>)
    requires
        i < args@.len(),
        i + 2 <= usize::MAX,
    ensures
        match with_pair(old(d)@, texts(args@), i as int) {
            Ok(n) => r is Ok && final(d)@ == n && i + 2 < args@.len(),
            Err(e) => r is Err && r->Err_0@ == e,
        },
{
    let o = args[i].as_str();
    assert(texts(args@)[i as int] == args@[i as int]@);
    if same(o, "--set-context") {
        let context = need(args, i + 2, "--set-context requires path and context")?;
        assert(texts(args@)[i + 1] == args@[i + 1]@);
        push_action(
            d,
            Action::SetContext { path: args[i + 1].clone(), context: context.to_owned() },
        );
        return Ok(());
    }
    if same(o, "--set-mode") {
        let v = need(args, i + 2, "--set-mode requires path and mode")?;
        assert(texts(args@)[i + 1] == args@[i + 1]@);
        let mode = parse_mode(v)?;
        push_action(d, Action::SetMode { path: args[i + 1].clone(), mode });
        return Ok(());
    }
    if same(o, "--set-owner") {
        let v = need(args, i + 2, "--set-owner requires path and uid:gid")?;
        assert(texts(args@)[i + 1] == args@[i + 1]@);
        let (uid, gid) = parse_owner(v)?;
        push_action(d, Action::SetOwner { path: args[i + 1].clone(), uid, gid });
        return Ok(());
    }
    let complaint = if same(o, "--add") {
        "--add requires source and destination"
    } else {
        "action requires source and destination"
    };
    let destination = need(args, i + 2, complaint)?.to_owned();
    assert(texts(args@)[i + 1] == args@[i + 1]@);
    let source = args[i + 1].clone();
    let metadata = d.pending.duplicate();
    let action = if same(o, "--add") || same(o, "-A") {
        Action::Add { source, destination, metadata }
    } else if same(o, "--cp") || same(o, "-C") {
        Action::Copy { source, destination, metadata }
    } else {
        Action::Move { source, destination, metadata }
    };
    push_action(d, action);
    d.pending = Metadata::default();
    Ok(())
}

/// One item of metadata.
pub enum Setting {
    Mode(u16),
    Uid(u32),
    Gid(u32),
    Context(String),
}

/// The mathematical counterpart of [`Setting`].
#[verifier::ext_equal]
pub enum SettingView {
    Mode(u16),
    Uid(u32),
    Gid(u32),
    Context(Seq<char>),
}

impl View for Setting {
    type V = SettingView;

    open spec fn view(&self) -> SettingView {
        match self {
            Setting::Mode(n) => SettingView::Mode(*n),
            Setting::Uid(n) => SettingView::Uid(*n),
            Setting::Gid(n) => SettingView::Gid(*n),
            Setting::Context(s) => SettingView::Context(s@),
        }
    }
}

/// The metadata with one item set.
pub open spec fn with_setting(m: MetaView, s: SettingView) -> MetaView {
    match s {
        SettingView::Mode(n) => MetaView { mode: Some(n), ..m },
        SettingView::Uid(n) => MetaView { uid: Some(n), ..m },
        SettingView::Gid(n) => MetaView { gid: Some(n), ..m },
        SettingView::Context(c) => MetaView { context: Some(c), ..m },
    }
}

/// The metadata with one item taken out.
pub open spec fn without_setting(m: MetaView, s: SettingView) -> MetaView {
    match s {
        SettingView::Mode(_) => MetaView { mode: None, ..m },
        SettingView::Uid(_) => MetaView { uid: None, ..m },
        SettingView::Gid(_) => MetaView { gid: None, ..m },
        SettingView::Context(_) => MetaView { context: None, ..m },
    }
}

/// The action with one item of its metadata set: only file actions have
/// metadata.
pub open spec fn action_with(a: ActionView, s: SettingView) -> Result<ActionView, Fault> {
    match a {
        ActionView::Add { source, destination, metadata } => Ok(
            ActionView::Add { source, destination, metadata: with_setting(metadata, s) },
        ),
        ActionView::Copy { source, destination, metadata } => Ok(
            ActionView::Copy { source, destination, metadata: with_setting(metadata, s) },
        ),
        ActionView::Move { source, destination, metadata } => Ok(
            ActionView::Move { source, destination, metadata: with_setting(metadata, s) },
        ),
        _ => fail(
            "--mode/--uid/--gid/--context apply to a file action (--add/--cp/--mv) only"@,
        ),
    }
}

/// The draft with an item of metadata, which is for the action in front of
/// it, or where there is none, for the one that comes.
pub open spec fn attached(d: DraftView, s: SettingView) -> Result<DraftView, Fault> {
    if d.actions.len() == 0 {
        Ok(DraftView { pending: with_setting(d.pending, s), ..d })
    } else {
        match action_with(d.actions.last(), s) {
            Err(e) => Err(e),
            Ok(a) => Ok(
                DraftView {
                    actions: d.actions.update(d.actions.len() - 1, a),
                    pending: without_setting(d.pending, s),
                    ..d
                },
            ),
        }
    }
}

fn set(m: &mut Metadata, s: &Setting)
    ensures
        final(m)@ == with_setting(old(m)@, s@),
{
    match s {
        Setting::Mode(n) => {
            m.mode = Some(*n);
        },
        Setting::Uid(n) => {
            m.uid = Some(*n);
        },
        Setting::Gid(n) => {
            m.gid = Some(*n);
        },
        Setting::Context(c) => {
            m.context = Some(c.clone());
        },
    }
}

fn unset(m: &mut Metadata, s: &Setting)
    ensures
        final(m)@ == without_setting(old(m)@, s@),
{
    match s {
        Setting::Mode(_) => {
            m.mode = None;
        },
        Setting::Uid(_) => {
            m.uid = None;
        },
        Setting::Gid(_) => {
            m.gid = None;
        },
        Setting::Context(_) => {
            m.context = None;
        },
    }
}

/// Sets an item of the metadata of a file action.
pub fn action_metadata(action: &mut Action, s: &Setting) -> (r: Result<(), Error>)
    ensures
        match action_with(old(action)@, s@) {
            Ok(a) => r is Ok && final(action)@ == a,
            Err(e) => r is Err && r->Err_0@ == e,
        },
{
    match action {
        Action::Add { metadata, .. } => {
            set(metadata, s);
            Ok(())
        },
        Action::Copy { metadata, .. } => {
            set(metadata, s);
            Ok(())
        },
        Action::Move { metadata, .. } => {
            set(metadata, s);
            Ok(())
        },
        _ => Err(
            Error::invalid(
                "--mode/--uid/--gid/--context apply to a file action (--add/--cp/--mv) only",
            ),
        ),
    }
}

fn attach(d: &mut Draft, s: Setting) -> (r: Result<(), Error>)
    ensures
        match attached(old(d)@, s@) {
            Ok(n) => r is Ok && final(d)@ == n,
            Err(e) => r is Err && r->Err_0@ == e,
        },
{
    let n = d.actions.len();
    if n == 0 {
        set(&mut d.pending, &s);
        return Ok(());
    }
    let ghost first = d.actions@;
    assert(action_views(first).last() == first[n - 1]@);
    match action_metadata(&mut d.actions[n - 1], &s) {
        Err(e) => {
            return Err(e);
        },
        Ok(()) => {},
    }
    assert(action_views(d.actions@) =~= action_views(first).update(n - 1, d.actions@[n - 1]@));
    unset(&mut d.pending, &s);
    Ok(())
}

/// The options that give an item of metadata.
pub open spec fn is_meta_option(o: Seq<char>) -> bool {
    o == "--mode"@ || o == "--uid"@ || o == "--gid"@ || o == "--context"@
}

/// The item of metadata that an option gives.
pub open spec fn setting_of(args: Seq<Seq<char>>, i: int) -> Result<SettingView, Fault> {
    let o = args[i];
    if o == "--mode"@ {
        match needed(args, i + 1, "--mode requires value"@) {
            Err(e) => Err(e),
            Ok(v) => match mode_of(v) {
                Err(e) => Err(e),
                Ok(n) => Ok(SettingView::Mode(n)),
            },
        }
    } else if o == "--uid"@ {
        match needed(args, i + 1, "--uid requires value"@) {
            Err(e) => Err(e),
            Ok(v) => match id_of(v, "invalid uid"@) {
                Err(e) => Err(e),
                Ok(n) => Ok(SettingView::Uid(n)),
            },
        }
    } else if o == "--gid"@ {
        match needed(args, i + 1, "--gid requires value"@) {
            Err(e) => Err(e),
            Ok(v) => match id_of(v, "invalid gid"@) {
                Err(e) => Err(e),
                Ok(n) => Ok(SettingView::Gid(n)),
            },
        }
    } else {
        match needed(args, i + 1, "--context requires value"@) {
            Err(e) => Err(e),
            Ok(v) => Ok(SettingView::Context(v)),
        }
    }
}

fn is_meta(o: &str) -> (b: bool)
    ensures
        b == is_meta_option(o@),
{
    same(o, "--mode") || same(o, "--uid") || same(o, "--gid") || same(o, "--context")
}

fn take_setting(args: &[String], i: usize) -> (r: Result<Setting, Error>)
    requires
        i < args@.len(),
        i + 1 <= usize::MAX,
    ensures
        match setting_of(texts(args@), i as int) {
            Ok(s) => r is Ok && r->Ok_0@ == s && i + 1 < args@.len(),
            Err(e) => r is Err && r->Err_0@ == e,
        },
{
    let o = args[i].as_str();
    assert(texts(args@)[i as int] == args@[i as int]@);
    if same(o, "--mode") {
        let v = need(args, i + 1, "--mode requires value")?;
        Ok(Setting::Mode(parse_mode(v)?))
    } else if same(o, "--uid") {
        let v = need(args, i + 1, "--uid requires value")?;
        Ok(Setting::Uid(parse_id(v, "invalid uid")?))
    } else if same(o, "--gid") {
        let v = need(args, i + 1, "--gid requires value")?;
        Ok(Setting::Gid(parse_id(v, "invalid gid")?))
    } else {
        let v = need(args, i + 1, "--context requires value")?;
        Ok(Setting::Context(v.to_owned()))
    }
}

/// The draft after the option at `i`, and where the next one is.
pub open spec fn stepped(d: DraftView, args: Seq<Seq<char>>, i: int) -> Result<
    (DraftView, int),
    Fault,
> {
    let o = args[i];
    if o == "--help"@ || o == "-h"@ {
        fail("help requested"@)
    } else if o == "--sparse-output"@ {
        Ok((DraftView { sparse_output: true, ..d }, i + 1))
    } else if o == "--compact"@ {
        Ok((DraftView { compact: true, ..d }, i + 1))
    } else if is_value_option(o) {
        match with_value(d, args, i) {
            Err(e) => Err(e),
            Ok(n) => Ok((n, i + 2)),
        }
    } else if is_pair_option(o) {
        match with_pair(d, args, i) {
            Err(e) => Err(e),
            Ok(n) => Ok((n, i + 3)),
        }
    } else if is_meta_option(o) {
        match setting_of(args, i) {
            Err(e) => Err(e),
            Ok(s) => match attached(d, s) {
                Err(e) => Err(e),
                Ok(n) => Ok((n, i + 2)),
            },
        }
    } else if o == "--rm"@ || o == "-R"@ || o == "-r"@ {
        let complaint = if o == "--rm"@ {
            "--rm requires a path"@
        } else {
            "-R requires a path"@
        };
        match needed(args, i + 1, complaint) {
            Err(e) => Err(e),
            Ok(path) => Ok(
                (
                    DraftView {
                        actions: d.actions.push(
                            ActionView::Remove { path, recursive: o != "--rm"@ },
                        ),
                        ..d
                    },
                    i + 2,
                ),
            ),
        }
    } else if o != "-"@ && o.len() > 0 && o[0] == '-' {
        fail("unknown option: "@ + o)
    } else {
        Ok((DraftView { positional: d.positional.push(o), ..d }, i + 1))
    }
}

fn take_option(d: &mut Draft, args: &[String], i: usize) -> (r: Result<usize, Error>)
    requires
        i < args.len(),
        i <= usize::MAX - 4,
    ensures
        match stepped(old(d)@, texts(args@), i as int) {
            Ok((n, next)) => r is Ok && r->Ok_0 == next && final(d)@ == n && i < next
                <= args@.len(),
            Err(e) => r is Err && r->Err_0@ == e,
        },
{
    let o = args[i].as_str();
    assert(texts(args@)[i as int] == args@[i as int]@);
    if same(o, "--help") || same(o, "-h") {
        return Err(Error::invalid("help requested"));
    }
    if same(o, "--sparse-output") {
        d.sparse_output = true;
        return Ok(i + 1);
    }
    if same(o, "--compact") {
        d.compact = true;
        return Ok(i + 1);
    }
    if is_value(o) {
        take_value(d, args, i)?;
        return Ok(i + 2);
    }
    if is_pair(o) {
        take_pair(d, args, i)?;
        return Ok(i + 3);
    }
    if is_meta(o) {
        let s = take_setting(args, i)?;
        attach(d, s)?;
        return Ok(i + 2);
    }
    if same(o, "--rm") || same(o, "-R") || same(o, "-r") {
        let plain = same(o, "--rm");
        let complaint = if plain {
            "--rm requires a path"
        } else {
            "-R requires a path"
        };
        let path = need(args, i + 1, complaint)?.to_owned();
        push_action(d, Action::Remove { path, recursive: !plain });
        return Ok(i + 2);
    }
    if !same(o, "-") {
        let v = chars_of(o);
        if v.len() > 0 && v[0] == '-' {
            let mut s: String = "unknown option: ".to_owned();
            push_text(&mut s, o);
            return Err(Error::Invalid(s));
        }
    }
    let ghost before = texts(d.positional@);
    d.positional.push(o.to_owned());
    assert(texts(d.positional@) =~= before.push(o@));
    Ok(i + 1)
}

/// The draft after the options from `i` on.
pub open spec fn drafted(d: DraftView, args: Seq<Seq<char>>, i: int) -> Result<DraftView, Fault>
    decreases args.len() - i,
{
    if i >= args.len() {
        Ok(d)
    } else {
        match stepped(d, args, i) {
            Err(e) => Err(e),
            Ok((n, next)) => if next <= i {
                arbitrary()
            } else {
                drafted(n, args, next)
            },
        }
    }
}

/// The arguments make no sense together.
pub open spec fn bad_usage<T>() -> Result<T, Fault> {
    fail("invalid arguments; use --help for usage"@)
}

/// The draft with the positional arguments in their places: the first is the
/// input and the next the output, unless options gave them.
pub open spec fn settled(d: DraftView) -> DraftView {
    let a = if d.input is None && d.positional.len() > 0 {
        DraftView { input: Some(d.positional[0]), positional: d.positional.drop_first(), ..d }
    } else {
        d
    };
    if a.output is None && a.positional.len() > 0 {
        DraftView { output: Some(a.positional[0]), positional: a.positional.drop_first(), ..a }
    } else {
        a
    }
}

/// The configuration that a draft makes. A conversion takes neither file
/// actions nor metadata for them; without actions, only repacking can be
/// asked for.
pub open spec fn concluded(draft: DraftView) -> Result<ConfigView, Fault> {
    let d = settled(draft);
    if d.positional.len() > 0 || d.input is None || d.output is None {
        bad_usage()
    } else if d.convert_to is Some && (d.actions.len() > 0 || d.pending != no_metadata()) {
        fail("--convert-to does not take file actions; convert first, then edit"@)
    } else if d.convert_to is None && d.actions.len() == 0 && d.shared_blocks is None
        && !d.compact {
        bad_usage()
    } else {
        Ok(
            ConfigView {
                input: d.input->Some_0,
                output: d.output->Some_0,
                sparse_output: d.sparse_output,
                shared_blocks: d.shared_blocks,
                reserve_mb: match d.reserve_mb {
                    Some(n) => n,
                    None => 0,
                },
                compact: d.compact,
                compress: d.compress,
                compress_explicit: d.compress_explicit,
                convert_to: d.convert_to,
                actions: d.actions,
            },
        )
    }
}

/// The configuration that the arguments give.
pub open spec fn config_of(args: Seq<Seq<char>>) -> Result<ConfigView, Fault> {
    match drafted(blank(), args, 0) {
        Err(e) => Err(e),
        Ok(d) => concluded(d),
    }
}

fn settle(d: &mut Draft)
    ensures
        final(d)@ == settled(old(d)@),
{
    if d.input.is_none() && d.positional.len() > 0 {
        let ghost before = d.positional@;
        let first = d.positional.remove(0);
        assert(texts(d.positional@) =~= texts(before).drop_first());
        assert(texts(before)[0] == before[0]@);
        d.input = Some(first);
    }
    if d.output.is_none() && d.positional.len() > 0 {
        let ghost before = d.positional@;
        let first = d.positional.remove(0);
        assert(texts(d.positional@) =~= texts(before).drop_first());
        assert(texts(before)[0] == before[0]@);
        d.output = Some(first);
    }
}

fn conclude(draft: Draft) -> (r: Result<Config, Error>)
    ensures
        match concluded(draft@) {
            Ok(c) => r is Ok && r->Ok_0@ == c,
            Err(e) => r is Err && r->Err_0@ == e,
        },
{
    let mut d = draft;
    settle(&mut d);
    assert(d@.actions.len() == d.actions@.len());
    assert(d@.positional.len() == d.positional@.len());
    if d.positional.len() > 0 {
        return Err(Error::invalid("invalid arguments; use --help for usage"));
    }
    let bare = d.pending.mode.is_none() && d.pending.uid.is_none() && d.pending.gid.is_none()
        && d.pending.context.is_none();
    let input = match d.input {
        Some(s) => s,
        None => {
            return Err(Error::invalid("invalid arguments; use --help for usage"));
        },
    };
    let output = match d.output {
        Some(s) => s,
        None => {
            return Err(Error::invalid("invalid arguments; use --help for usage"));
        },
    };
    if d.convert_to.is_some() {
        if d.actions.len() > 0 || !bare {
            return Err(
                Error::invalid("--convert-to does not take file actions; convert first, then edit"),
            );
        }
    } else if d.actions.len() == 0 && d.shared_blocks.is_none() && !d.compact {
        return Err(Error::invalid("invalid arguments; use --help for usage"));
    }
    Ok(
        Config {
            input,
            output,
            sparse_output: d.sparse_output,
            shared_blocks: d.shared_blocks,
            reserve_mb: match d.reserve_mb {
                Some(n) => n,
                None => 0,
            },
            compact: d.compact,
            compress: d.compress,
            compress_explicit: d.compress_explicit,
            convert_to: d.convert_to,
            actions: d.actions,
        },
    )
}

/// Reads the arguments of the write command. A request for help is the error
/// `help requested`.
pub fn parse_args(args: &[String]) -> (r: Result<Config, Error>)
    requires
        args.len() <= usize::MAX - 4,
    ensures
        match config_of(texts(args@)) {
            Ok(c) => r is Ok && r->Ok_0@ == c,
            Err(e) => r is Err && r->Err_0@ == e,
        },
{
    let mut d = Draft {
        positional: Vec::new(),
        input: None,
        output: None,
        sparse_output: false,
        shared_blocks: None,
        reserve_mb: None,
        compact: false,
        compress: Algo::Off,
        compress_explicit: false,
        convert_to: None,
        actions: Vec::new(),
        pending: Metadata::default(),
    };
    assert(d@ =~= blank());
    let mut i: usize = 0;
    while i < args.len()
        invariant
            i <= args.len() <= usize::MAX - 4,
            drafted(blank(), texts(args@), 0) == drafted(d@, texts(args@), i as int),
        decreases args.len() - i,
    {
        match take_option(&mut d, args, i) {
            Err(e) => {
                return Err(e);
            },
            Ok(next) => {
                i = next;
            },
        }
    }
    conclude(d)
}

} // verus!
