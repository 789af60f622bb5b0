//! The arguments of the read command.
use crate::error::{fail, Error, Fault};
use crate::text::{chars_of, opt_text, push_text, same, string_of, texts, with_text};
use vstd::prelude::*;

verus! {

/// What is done with the path.
pub enum Operation {
    List,
    /// Find the entries below a directory whose names match a pattern, or
    /// all of them.
    Find(Option<String>),
    Cat,
}

/// The mathematical counterpart of [`Operation`].
#[verifier::ext_equal]
pub enum OperationView {
    List,
    Find(Option<Seq<char>>),
    Cat,
}

impl View for Operation {
    type V = OperationView;

    open spec fn view(&self) -> OperationView {
        match self {
            Operation::List => OperationView::List,
            Operation::Find(p) => OperationView::Find(opt_text(*p)),
            Operation::Cat => OperationView::Cat,
        }
    }
}

/// The view of an operation that may be there.
pub open spec fn opt_operation(o: Option<Operation>) -> Option<OperationView> {
    match o {
        Some(x) => Some(x@),
        None => None,
    }
}

/// What is shown of an entry besides its name.
#[derive(Debug, Clone, Copy)]
pub struct MetadataOptions {
    pub file_type: bool,
    pub content_type: bool,
    pub owner: bool,
    pub permissions: bool,
    pub numeric_permissions: bool,
    pub size: bool,
    pub human_size: bool,
    pub context: bool,
}

/// Nothing but the name.
pub open spec fn no_options() -> MetadataOptions {
    MetadataOptions {
        file_type: false,
        content_type: false,
        owner: false,
        permissions: false,
        numeric_permissions: false,
        size: false,
        human_size: false,
        context: false,
    }
}

impl Default for MetadataOptions {
    fn default() -> (o: MetadataOptions)
        ensures
            o == no_options(),
    {
        MetadataOptions {
            file_type: false,
            content_type: false,
            owner: false,
            permissions: false,
            numeric_permissions: false,
            size: false,
            human_size: false,
            context: false,
        }
    }
}

impl MetadataOptions {
    /// Whether anything besides the name is shown.
    pub open spec fn any(self) -> bool {
        self != no_options()
    }

    /// Whether anything was asked for.
    pub fn requested(self) -> (b: bool)
        ensures
            b == self.any(),
    {
        self.file_type || self.content_type || self.owner || self.permissions
            || self.numeric_permissions || self.size || self.human_size || self.context
    }
}

/// What the read command is asked to do.
pub struct Cli {
    pub image: String,
    pub path: String,
    pub info: bool,
    pub operation: Option<Operation>,
    pub metadata: MetadataOptions,
}

/// The mathematical counterpart of [`Cli`].
#[verifier::ext_equal]
pub struct CliView {
    pub image: Seq<char>,
    pub path: Seq<char>,
    pub info: bool,
    pub operation: Option<OperationView>,
    pub metadata: MetadataOptions,
}

impl View for Cli {
    type V = CliView;

    open spec fn view(&self) -> CliView {
        CliView {
            image: self.image@,
            path: self.path@,
            info: self.info,
            operation: opt_operation(self.operation),
            metadata: self.metadata,
        }
    }
}

// ---------------------------------------------------------------------
// Options
// ---------------------------------------------------------------------
/// The arguments that were read so far; positional ones by their index.
pub struct Draft {
    pub positional: Vec<usize>,
    pub info: bool,
    pub stdin: bool,
    pub operation: Option<Operation>,
    pub metadata: MetadataOptions,
}

/// The mathematical counterpart of [`Draft`].
#[verifier::ext_equal]
pub struct DraftView {
    pub positional: Seq<usize>,
    pub info: bool,
    pub stdin: bool,
    pub operation: Option<OperationView>,
    pub metadata: MetadataOptions,
}

impl View for Draft {
    type V = DraftView;

    open spec fn view(&self) -> DraftView {
        DraftView {
            positional: self.positional@,
            info: self.info,
            stdin: self.stdin,
            operation: opt_operation(self.operation),
            metadata: self.metadata,
        }
    }
}

/// Nothing was read yet.
pub open spec fn blank() -> DraftView {
    DraftView {
        positional: Seq::empty(),
        info: false,
        stdin: false,
        operation: None,
        metadata: no_options(),
    }
}

/// The option that takes a pattern.
pub open spec fn pattern_option() -> Seq<char> {
    seq!['-', '-', 'f', 'i', 'n', 'd', '=']
}

/// Whether a text begins with the option that takes a pattern.
pub open spec fn takes_pattern(s: Seq<char>) -> bool {
    s.len() >= 7 && s.take(7) == pattern_option()
}

/// The text without the option, however often it is repeated.
pub open spec fn pattern_in(s: Seq<char>) -> Seq<char>
    decreases s.len(),
{
    if takes_pattern(s) {
        pattern_in(s.skip(7))
    } else {
        s
    }
}

/// The draft with an operation, of which there is only one.
pub open spec fn with_operation(d: DraftView, o: OperationView) -> Result<DraftView, Fault> {
    if d.operation is Some {
        fail("only one operation may be selected"@)
    } else {
        Ok(DraftView { operation: Some(o), ..d })
    }
}

/// Whether an argument asks for help.
pub open spec fn is_help(s: Seq<char>) -> bool {
    s == "-h"@ || s == "--help"@
}

/// The options for the metadata that an argument asks for.
pub open spec fn shown_by(m: MetadataOptions, s: Seq<char>) -> Option<MetadataOptions> {
    if s == "-t"@ || s == "--type"@ {
        Some(MetadataOptions { file_type: true, ..m })
    } else if s == "-F"@ || s == "--file-type"@ {
        Some(MetadataOptions { content_type: true, ..m })
    } else if s == "-o"@ || s == "--owner"@ {
        Some(MetadataOptions { owner: true, ..m })
    } else if s == "-p"@ || s == "--permissions"@ {
        Some(MetadataOptions { permissions: true, ..m })
    } else if s == "-n"@ || s == "--numeric-permissions"@ {
        Some(MetadataOptions { numeric_permissions: true, ..m })
    } else if s == "-s"@ || s == "--size"@ {
        Some(MetadataOptions { size: true, ..m })
    } else if s == "-H"@ || s == "--human-size"@ {
        Some(MetadataOptions { human_size: true, ..m })
    } else if s == "-Z"@ || s == "--context"@ {
        Some(MetadataOptions { context: true, ..m })
    } else {
        None
    }
}

/// The draft with the argument of the given index.
pub open spec fn stepped(d: DraftView, s: Seq<char>, i: usize) -> Result<DraftView, Fault> {
    if s == "-i"@ || s == "--info"@ {
        Ok(DraftView { info: true, ..d })
    } else if s == "--stdin"@ {
        Ok(DraftView { stdin: true, ..d })
    } else if shown_by(d.metadata, s) is Some {
        Ok(DraftView { metadata: shown_by(d.metadata, s)->Some_0, ..d })
    } else if s == "-l"@ || s == "--ls"@ {
        with_operation(d, OperationView::List)
    } else if s == "-c"@ || s == "--cat"@ {
        with_operation(d, OperationView::Cat)
    } else if s == "-f"@ || s == "--find"@ {
        with_operation(d, OperationView::Find(None))
    } else if takes_pattern(s) {
        if pattern_in(s).len() == 0 {
            fail("--find pattern cannot be empty"@)
        } else {
            with_operation(d, OperationView::Find(Some(pattern_in(s))))
        }
    } else if s != "-"@ && s.len() > 0 && s[0] == '-' {
        fail("unknown option: "@ + s + ""@)
    } else {
        Ok(DraftView { positional: d.positional.push(i), ..d })
    }
}

/// The draft with the arguments from index `i` on, or nothing where help is
/// asked for.
pub open spec fn drafted(d: DraftView, args: Seq<Seq<char>>, i: int) -> Result<
    Option<DraftView>,
    Fault,
>
    decreases args.len() - i,
{
    if i >= args.len() {
        Ok(Some(d))
    } else if is_help(args[i]) {
        Ok(None)
    } else {
        match stepped(d, args[i], i as usize) {
            Err(e) => Err(e),
            Ok(next) => drafted(next, args, i + 1),
        }
    }
}

// ---------------------------------------------------------------------
// Positional arguments
// ---------------------------------------------------------------------
/// The positional argument of the given place.
pub open spec fn place(d: DraftView, args: Seq<Seq<char>>, k: int) -> Option<Seq<char>> {
    if k < d.positional.len() {
        Some(args[d.positional[k] as int])
    } else {
        None
    }
}

/// Whether the positional argument of the given place names a file.
pub open spec fn names_file(d: DraftView, files: Seq<bool>, k: int) -> bool {
    files[d.positional[k] as int]
}

/// The places of the image and of the path among the positional arguments,
/// and that of a pattern. Without a place for the image it is standard
/// input. An image and a path may come in either order, where only one of
/// them names a file.
pub open spec fn places(d: DraftView, files: Seq<bool>) -> (Option<int>, int, Option<int>) {
    let searches = d.operation == Some(OperationView::Find(None));
    if d.stdin {
        if searches && d.positional.len() > 0 {
            (None, 1, Some(0))
        } else {
            (None, 0, None)
        }
    } else if searches && d.positional.len() >= 2 && !names_file(d, files, 0) {
        (Some(1), 2, Some(0))
    } else if d.positional.len() >= 2 && !names_file(d, files, 0) && names_file(d, files, 1) {
        (Some(1), 0, None)
    } else {
        (Some(0), 1, None)
    }
}

/// What is asked for. An image that is no file is refused, but for `-`,
/// which is standard input.
pub open spec fn concluded(d: DraftView, args: Seq<Seq<char>>, files: Seq<bool>) -> Result<
    CliView,
    Fault,
> {
    let (at, path, pattern) = places(d, files);
    let image = match at {
        None => Some("-"@),
        Some(k) => place(d, args, k),
    };
    match image {
        None => fail("image path is required; use --help for usage"@),
        Some(name) => if at is Some && name != "-"@ && !names_file(d, files, at->Some_0) {
            fail("image file not found: "@ + name + ""@)
        } else {
            Ok(
                CliView {
                    image: name,
                    path: match place(d, args, path) {
                        Some(p) => p,
                        None => "/"@,
                    },
                    info: d.info,
                    operation: match pattern {
                        Some(k) => Some(OperationView::Find(place(d, args, k))),
                        None => d.operation,
                    },
                    metadata: d.metadata,
                },
            )
        },
    }
}

/// What the arguments ask for, where `files` tells which of them name files;
/// nothing where they ask for help.
pub open spec fn cli_of(args: Seq<Seq<char>>, files: Seq<bool>) -> Result<Option<CliView>, Fault> {
    match drafted(blank(), args, 0) {
        Err(e) => Err(e),
        Ok(None) => Ok(None),
        Ok(Some(d)) => match concluded(d, args, files) {
            Err(e) => Err(e),
            Ok(c) => Ok(Some(c)),
        },
    }
}

fn check_pattern(v: &Vec<char>, at: usize) -> (b: bool)
    requires
        at <= v@.len(),
    ensures
        b == takes_pattern(v@.skip(at as int)),
{
    let ghost t = v@.skip(at as int);
    if v.len() - at < 7 {
        return false;
    }
    let b = v[at] == '-' && v[at + 1] == '-' && v[at + 2] == 'f' && v[at + 3] == 'i' && v[at + 4]
        == 'n' && v[at + 5] == 'd' && v[at + 6] == '=';
    proof {
        let p = t.take(7);
        assert(p[0] == v@[at as int] && p[1] == v@[at + 1] && p[2] == v@[at + 2] && p[3] == v@[at
            + 3] && p[4] == v@[at + 4] && p[5] == v@[at + 5] && p[6] == v@[at + 6]);
        if b {
            assert(p =~= pattern_option());
        }
    }
    b
}

/// The pattern of an option that takes one.
fn read_pattern(s: &str) -> (r: Option<String>)
    ensures
        match r {
            Some(p) => takes_pattern(s@) && p@ == pattern_in(s@),
            None => !takes_pattern(s@),
        },
{
    let v = chars_of(s);
    let mut at: usize = 0;
    assert(v@.skip(0) =~= v@);
    if !check_pattern(&v, 0) {
        return None;
    }
    while check_pattern(&v, at)
        invariant
            at <= v@.len(),
            v@ == s@,
            pattern_in(s@) == pattern_in(v@.skip(at as int)),
        decreases v@.len() - at,
    {
        assert(v@.skip(at as int).skip(7) =~= v@.skip(at + 7));
        at += 7;
    }
    proof {
        assert(v@.subrange(at as int, v@.len() as int) =~= v@.skip(at as int));
    }
    Some(string_of(&v[at..v.len()]))
}

fn set_operation(d: &mut Draft, o: Operation) -> (r: Result<(), Error>)
    ensures
        match with_operation(old(d)@, o@) {
            Ok(x) => r is Ok && final(d)@ == x,
            Err(e) => r is Err && r->Err_0@ == e,
        },
{
    if d.operation.is_some() {
        return Err(Error::invalid("only one operation may be selected"));
    }
    d.operation = Some(o);
    Ok(())
}

/// Whether an argument is one of two.
fn either(s: &str, a: &str, b: &str) -> (r: bool)
    ensures
        r == (s@ == a@ || s@ == b@),
{
    same(s, a) || same(s, b)
}

fn show(m: &mut MetadataOptions, s: &str) -> (r: bool)
    ensures
        match shown_by(*old(m), s@) {
            Some(x) => r && *final(m) == x,
            None => !r && *final(m) == *old(m),
        },
{
    if either(s, "-t", "--type") {
        m.file_type = true;
    } else if either(s, "-F", "--file-type") {
        m.content_type = true;
    } else if either(s, "-o", "--owner") {
        m.owner = true;
    } else if either(s, "-p", "--permissions") {
        m.permissions = true;
    } else if either(s, "-n", "--numeric-permissions") {
        m.numeric_permissions = true;
    } else if either(s, "-s", "--size") {
        m.size = true;
    } else if either(s, "-H", "--human-size") {
        m.human_size = true;
    } else if either(s, "-Z", "--context") {
        m.context = true;
    } else {
        return false;
    }
    true
}

fn is_option(s: &str) -> (b: bool)
    ensures
        b == (s@ != "-"@ && s@.len() > 0 && s@[0] == '-'),
{
    let v = chars_of(s);
    !same(s, "-") && v.len() > 0 && v[0] == '-'
}

fn take_argument(d: &mut Draft, s: &str, i: usize) -> (r: Result<(), Error>)
    ensures
        match stepped(old(d)@, s@, i) {
            Ok(x) => r is Ok && final(d)@ == x,
            Err(e) => r is Err && r->Err_0@ == e,
        },
{
    if either(s, "-i", "--info") {
        d.info = true;
        return Ok(());
    }
    if same(s, "--stdin") {
        d.stdin = true;
        return Ok(());
    }
    let mut metadata = d.metadata;
    if show(&mut metadata, s) {
        d.metadata = metadata;
        return Ok(());
    }
    if either(s, "-l", "--ls") {
        return set_operation(d, Operation::List);
    }
    if either(s, "-c", "--cat") {
        return set_operation(d, Operation::Cat);
    }
    if either(s, "-f", "--find") {
        return set_operation(d, Operation::Find(None));
    }
    match read_pattern(s) {
        Some(pattern) => {
            if chars_of(pattern.as_str()).len() == 0 {
                return Err(Error::invalid("--find pattern cannot be empty"));
            }
            return set_operation(d, Operation::Find(Some(pattern)));
        },
        None => {},
    }
    if is_option(s) {
        return Err(Error::Invalid(with_text("unknown option: ", s, "")));
    }
    d.positional.push(i);
    Ok(())
}

/// The positional arguments are among the arguments.
spec fn placed_within(d: DraftView, n: int) -> bool {
    forall|k: int| 0 <= k < d.positional.len() ==> (#[trigger] d.positional[k]) < n
}

fn copy_place(d: &Draft, args: &Vec<String>, k: usize) -> (r: Option<String>)
    requires
        placed_within(d@, args@.len() as int),
    ensures
        opt_text(r) == place(d@, texts(args@), k as int),
{
    if k >= d.positional.len() {
        return None;
    }
    assert(d@.positional[k as int] < args@.len());
    let mut s: String = "".to_owned();
    push_text(&mut s, args[d.positional[k]].as_str());
    proof {
        reveal_strlit("");
        assert(s@ =~= texts(args@)[d.positional@[k as int] as int]);
    }
    Some(s)
}

fn searches(o: &Option<Operation>) -> (b: bool)
    ensures
        b == (opt_operation(*o) == Some(OperationView::Find(None))),
{
    match o {
        Some(Operation::Find(None)) => true,
        _ => false,
    }
}

fn find_places(d: &Draft, files: &Vec<bool>) -> (r: (Option<usize>, usize, Option<usize>))
    requires
        placed_within(d@, files@.len() as int),
    ensures
        ({
            let (a, b, c) = places(d@, files@);
            &&& r.1 == b
            &&& match r.0 {
                Some(k) => a == Some(k as int),
                None => a is None,
            }
            &&& match r.2 {
                Some(k) => c == Some(k as int),
                None => c is None,
            }
        }),
{
    let n = d.positional.len();
    if d.stdin {
        return if searches(&d.operation) && n > 0 {
            (None, 1, Some(0))
        } else {
            (None, 0, None)
        };
    }
    if n >= 2 {
        assert(d@.positional[0] < files@.len() && d@.positional[1] < files@.len());
        let first = files[d.positional[0]];
        let second = files[d.positional[1]];
        if searches(&d.operation) && !first {
            return (Some(1), 2, Some(0));
        }
        if !first && second {
            return (Some(1), 0, None);
        }
    }
    (Some(0), 1, None)
}

fn conclude(d: Draft, args: &Vec<String>, files: &Vec<bool>) -> (r: Result<Cli, Error>)
    requires
        placed_within(d@, args@.len() as int),
        files@.len() == args@.len(),
    ensures
        match concluded(d@, texts(args@), files@) {
            Ok(c) => r is Ok && r->Ok_0@ == c,
            Err(e) => r is Err && r->Err_0@ == e,
        },
{
    let (at, path_at, pattern_at) = find_places(&d, files);
    let image = match at {
        None => Some("-".to_owned()),
        Some(k) => copy_place(&d, args, k),
    };
    let name = match image {
        None => {
            return Err(Error::invalid("image path is required; use --help for usage"));
        },
        Some(name) => name,
    };
    match at {
        Some(k) => {
            assert(d@.positional[k as int] < files@.len());
            if !same(name.as_str(), "-") && !files[d.positional[k]] {
                return Err(
                    Error::Invalid(with_text("image file not found: ", name.as_str(), "")),
                );
            }
        },
        None => {},
    }
    let path = match copy_place(&d, args, path_at) {
        Some(p) => p,
        None => "/".to_owned(),
    };
    let pattern = match pattern_at {
        Some(k) => copy_place(&d, args, k),
        None => None,
    };
    let operation = match pattern_at {
        Some(_) => Some(Operation::Find(pattern)),
        None => d.operation,
    };
    Ok(Cli { image: name, path, info: d.info, operation, metadata: d.metadata })
}

/// Reads the arguments; `files` tells which of them name files. The result
/// is nothing where they ask for help.
pub fn parse_cli(args: &Vec<String>, files: &Vec<bool>) -> (r: Result<Option<Cli>, Error>)
    requires
        files@.len() == args@.len(),
    ensures
        match cli_of(texts(args@), files@) {
            Ok(c) => match r {
                Ok(Some(x)) => c == Some(x@),
                Ok(None) => c is None,
                Err(_) => false,
            },
            Err(e) => r is Err && r->Err_0@ == e,
        },
{
    let mut d = Draft {
        positional: Vec::new(),
        info: false,
        stdin: false,
        operation: None,
        metadata: MetadataOptions::default(),
    };
    assert(d@ =~= blank());
    let mut i: usize = 0;
    while i < args.len()
        invariant
            i <= args@.len(),
            drafted(blank(), texts(args@), 0) == drafted(d@, texts(args@), i as int),
            placed_within(d@, i as int),
        decreases args.len() - i,
    {
        let s = args[i].as_str();
        assert(texts(args@)[i as int] == s@);
        if either(s, "-h", "--help") {
            return Ok(None);
        }
        match take_argument(&mut d, s, i) {
            Err(e) => {
                return Err(e);
            },
            Ok(_) => {},
        }
        i += 1;
    }
    match conclude(d, args, files) {
        Ok(c) => Ok(Some(c)),
        Err(e) => Err(e),
    }
}

} // verus!
