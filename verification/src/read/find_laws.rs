//! What searching finds: every entry below a directory that matches, and
//! nothing else.
use super::cli::MetadataOptions;
use super::show::{
    described, entry_path, is_dot, item_line, matched, searched, searched_below, wanted,
    without_back, without_front, Filesystem, ItemView, MAX_DEPTH,
};
use crate::error::Fault;
use vstd::prelude::*;
use vstd::utf8::encode_utf8;

verus! {

// ---------------------------------------------------------------------
// Ways
// ---------------------------------------------------------------------
/// The entry that a way leads to. A way says at each directory which of its
/// entries to take; it leads through directories, and never to a directory
/// itself or to its parent.
pub open spec fn led_to(fs: Filesystem, d: Seq<u8>, from: u64, way: Seq<int>) -> Option<ItemView>
    decreases way.len(),
{
    if way.len() == 0 {
        None
    } else {
        match fs.entries(d, from) {
            Err(_) => None,
            Ok(s) => if 0 <= way[0] < s.len() && s[way[0]].name != "."@ && s[way[0]].name
                != ".."@ {
                if way.len() == 1 {
                    Some(s[way[0]])
                } else if s[way[0]].file_type == 2 {
                    led_to(fs, d, s[way[0]].id, way.drop_first())
                } else {
                    None
                }
            } else {
                None
            },
        }
    }
}

/// The path of the entry that a way leads to: that of the directory it starts
/// at, and the names on the way, each behind a slash.
pub open spec fn path_of(
    fs: Filesystem,
    d: Seq<u8>,
    from: u64,
    front: Seq<char>,
    way: Seq<int>,
) -> Seq<char>
    decreases way.len(),
{
    if way.len() == 0 {
        front
    } else {
        let item = fs.entries(d, from)->Ok_0[way[0]];
        path_of(fs, d, item.id, front + seq!['/'] + item.name, way.drop_first())
    }
}

/// The way leads to an entry whose name matches.
pub open spec fn leads_to_a_match(
    fs: Filesystem,
    d: Seq<u8>,
    from: u64,
    pattern: Option<Seq<char>>,
    way: Seq<int>,
) -> bool {
    led_to(fs, d, from, way) matches Some(item) && wanted(item.name, pattern)
}

/// The line of the entry that a way leads to.
pub open spec fn line_of(
    fs: Filesystem,
    d: Seq<u8>,
    from: u64,
    front: Seq<char>,
    o: MetadataOptions,
    way: Seq<int>,
) -> Seq<char> {
    let path = path_of(fs, d, from, front, way);
    if o.any() {
        described(fs, d, led_to(fs, d, from, way)->Some_0, path, o)->Ok_0
    } else {
        path + seq!['\n']
    }
}

/// The lines of the entries that ways lead to, one behind the other.
pub open spec fn lines_of(
    fs: Filesystem,
    d: Seq<u8>,
    from: u64,
    front: Seq<char>,
    o: MetadataOptions,
    ways: Seq<Seq<int>>,
) -> Seq<u8>
    decreases ways.len(),
{
    if ways.len() == 0 {
        Seq::empty()
    } else {
        lines_of(fs, d, from, front, o, ways.drop_last()) + encode_utf8(
            line_of(fs, d, from, front, o, ways.last()),
        )
    }
}

/// The names below a directory are names: not empty, and without a slash.
pub open spec fn names_are_plain(fs: Filesystem, d: Seq<u8>, from: u64) -> bool {
    forall|way: Seq<int>|
        #[trigger] led_to(fs, d, from, way) matches Some(item) ==> item.name.len() > 0
            && !item.name.contains('/')
}

/// How a path is written: that of the root is a slash, any other has slashes in
/// front of it and behind it, or not. `front` is the path without the slashes
/// behind it, with one in front.
pub open spec fn is_written(path: Seq<char>, front: Seq<char>) -> bool {
    ||| path == seq!['/'] && front.len() == 0
    ||| {
        &&& front.len() > 1
        &&& front[0] == '/'
        &&& front[1] != '/'
        &&& front.last() != '/'
        &&& without_back(without_front(path)) == front.skip(1)
        &&& path != seq!['/']
    }
}

/// A path between slashes is written.
pub proof fn paths_are_written(before: nat, middle: Seq<char>, behind: nat)
    requires
        middle.len() > 0,
        middle[0] != '/',
        middle.last() != '/',
    ensures
        is_written(
            Seq::new(before, |i: int| '/') + middle + Seq::new(behind, |i: int| '/'),
            seq!['/'] + middle,
        ),
{
    let front = seq!['/'] + middle;
    let tail = middle + Seq::new(behind, |i: int| '/');
    let path = Seq::new(before, |i: int| '/') + middle + Seq::new(behind, |i: int| '/');
    assert(path =~= Seq::new(before, |i: int| '/') + tail);
    front_slashes_go(before, tail);
    back_slashes_go(middle, behind);
    assert(front.skip(1) =~= middle);
    assert(path[before as int] == middle[0]);
    if path == seq!['/'] {
        assert(path.len() == before + middle.len() + behind);
        assert(before == 0);
        assert(seq!['/'][0] == middle[0]);
    }
}

proof fn front_slashes_go(n: nat, s: Seq<char>)
    requires
        s.len() > 0,
        s[0] != '/',
    ensures
        without_front(Seq::new(n, |i: int| '/') + s) == s,
    decreases n,
{
    let t = Seq::new(n, |i: int| '/') + s;
    if n == 0 {
        assert(t =~= s);
    } else {
        assert(t.skip(1) =~= Seq::new((n - 1) as nat, |i: int| '/') + s);
        front_slashes_go((n - 1) as nat, s);
    }
}

proof fn back_slashes_go(s: Seq<char>, n: nat)
    requires
        s.len() > 0,
        s.last() != '/',
    ensures
        without_back(s + Seq::new(n, |i: int| '/')) == s,
    decreases n,
{
    let t = s + Seq::new(n, |i: int| '/');
    if n == 0 {
        assert(t =~= s);
    } else {
        assert(t.drop_last() =~= s + Seq::new((n - 1) as nat, |i: int| '/'));
        back_slashes_go(s, (n - 1) as nat);
    }
}

/// The path of an entry is the path of its directory, a slash, and its name.
proof fn entry_paths_are_written(path: Seq<char>, front: Seq<char>, name: Seq<char>)
    requires
        is_written(path, front),
        name.len() > 0,
        !name.contains('/'),
    ensures
        entry_path(path, name) == front + seq!['/'] + name,
        is_written(entry_path(path, name), front + seq!['/'] + name),
{
    reveal_strlit("/");
    assert("/"@ =~= seq!['/']);
    let p = entry_path(path, name);
    let q = front + seq!['/'] + name;
    assert(name.contains(name[0]));
    assert(name.contains(name.last()));
    if path == seq!['/'] {
        assert(front =~= Seq::empty());
        assert(p =~= q);
    } else {
        assert(seq!['/'] + front.skip(1) =~= front);
        assert(p =~= q);
    }
    let middle = q.skip(1);
    assert(q =~= Seq::new(1, |i: int| '/') + middle + Seq::new(0, |i: int| '/'));
    assert(seq!['/'] + middle =~= q);
    assert(middle.last() == name.last());
    if front.len() > 0 {
        assert(middle[0] == front[1]);
    } else {
        assert(middle[0] == name[0]);
    }
    paths_are_written(1, middle, 0);
}

// ---------------------------------------------------------------------
// Entries of one directory
// ---------------------------------------------------------------------
/// Ways put together from a first step and what goes on from there.
spec fn after_step(i: int, ways: Seq<Seq<int>>) -> Seq<Seq<int>> {
    Seq::new(ways.len(), |k: int| seq![i] + ways[k])
}

proof fn lines_join(
    fs: Filesystem,
    d: Seq<u8>,
    from: u64,
    front: Seq<char>,
    o: MetadataOptions,
    a: Seq<Seq<int>>,
    b: Seq<Seq<int>>,
)
    ensures
        lines_of(fs, d, from, front, o, a + b) == lines_of(fs, d, from, front, o, a) + lines_of(
            fs,
            d,
            from,
            front,
            o,
            b,
        ),
    decreases b.len(),
{
    if b.len() == 0 {
        assert(a + b =~= a);
        assert(lines_of(fs, d, from, front, o, b) =~= Seq::empty());
    } else {
        assert((a + b).drop_last() =~= a + b.drop_last());
        assert((a + b).last() == b.last());
        lines_join(fs, d, from, front, o, a, b.drop_last());
    }
}

proof fn steps_go_on(
    fs: Filesystem,
    d: Seq<u8>,
    from: u64,
    front: Seq<char>,
    i: int,
    way: Seq<int>,
)
    requires
        fs.entries(d, from) matches Ok(s) && 0 <= i < s.len() && s[i].name != "."@ && s[i].name
            != ".."@ && s[i].file_type == 2,
        way.len() > 0,
    ensures
        ({
            let item = fs.entries(d, from)->Ok_0[i];
            &&& led_to(fs, d, from, seq![i] + way) == led_to(fs, d, item.id, way)
            &&& path_of(fs, d, from, front, seq![i] + way) == path_of(
                fs,
                d,
                item.id,
                front + seq!['/'] + item.name,
                way,
            )
        }),
{
    let w = seq![i] + way;
    assert(w[0] == i);
    assert(w.drop_first() =~= way);
}

proof fn lines_after_a_step(
    fs: Filesystem,
    d: Seq<u8>,
    from: u64,
    front: Seq<char>,
    o: MetadataOptions,
    i: int,
    ways: Seq<Seq<int>>,
)
    requires
        fs.entries(d, from) matches Ok(s) && 0 <= i < s.len() && s[i].name != "."@ && s[i].name
            != ".."@ && s[i].file_type == 2,
        forall|k: int| 0 <= k < ways.len() ==> (#[trigger] ways[k]).len() > 0,
    ensures
        ({
            let item = fs.entries(d, from)->Ok_0[i];
            lines_of(fs, d, from, front, o, after_step(i, ways)) == lines_of(
                fs,
                d,
                item.id,
                front + seq!['/'] + item.name,
                o,
                ways,
            )
        }),
    decreases ways.len(),
{
    if ways.len() > 0 {
        let less = ways.drop_last();
        assert(after_step(i, ways).drop_last() =~= after_step(i, less));
        assert forall|k: int| 0 <= k < less.len() implies (#[trigger] less[k]).len() > 0 by {
            assert(less[k] == ways[k]);
        }
        lines_after_a_step(fs, d, from, front, o, i, less);
        assert(ways[ways.len() - 1].len() > 0);
        steps_go_on(fs, d, from, front, i, ways.last());
    }
}

/// The ways are those of one step, among the first `n` entries, that lead to a
/// match.
spec fn single_steps(
    fs: Filesystem,
    d: Seq<u8>,
    from: u64,
    pattern: Option<Seq<char>>,
    n: int,
    ways: Seq<Seq<int>>,
) -> bool {
    &&& ways.no_duplicates()
    &&& forall|w: Seq<int>|
        #[trigger] ways.contains(w) <==> (w.len() == 1 && w[0] < n && leads_to_a_match(
            fs,
            d,
            from,
            pattern,
            w,
        ))
}

proof fn own_entries_are_found(
    fs: Filesystem,
    d: Seq<u8>,
    from: u64,
    path: Seq<char>,
    front: Seq<char>,
    pattern: Option<Seq<char>>,
    o: MetadataOptions,
    n: int,
) -> (ways: Seq<Seq<int>>)
    requires
        is_written(path, front),
        fs.entries(d, from) matches Ok(s) && 0 <= n <= s.len() && matched(
            fs,
            d,
            s.take(n),
            path,
            pattern,
            o,
        ) is Ok,
        names_are_plain(fs, d, from),
    ensures
        single_steps(fs, d, from, pattern, n, ways),
        matched(fs, d, fs.entries(d, from)->Ok_0.take(n), path, pattern, o) == Ok::<
            Seq<u8>,
            Fault,
        >(lines_of(fs, d, from, front, o, ways)),
    decreases n,
{
    let s = fs.entries(d, from)->Ok_0;
    if n == 0 {
        let ways = Seq::<Seq<int>>::empty();
        assert forall|w: Seq<int>| w.len() == 1 && w[0] < 0 implies !leads_to_a_match(
            fs,
            d,
            from,
            pattern,
            w,
        ) by {}
        ways
    } else {
        let t = s.take(n);
        assert(t.drop_last() =~= s.take(n - 1));
        assert(t.last() == s[n - 1]);
        let before = own_entries_are_found(fs, d, from, path, front, pattern, o, n - 1);
        let item = s[n - 1];
        let way = seq![n - 1];
        assert(way.drop_first() =~= Seq::empty());
        if is_dot(item.name) || !wanted(item.name, pattern) {
            assert forall|w: Seq<int>| w.len() == 1 && w[0] == n - 1 implies !leads_to_a_match(
                fs,
                d,
                from,
                pattern,
                w,
            ) by {}
            before
        } else {
            let ways = before.push(way);
            assert(led_to(fs, d, from, way) == Some(item));
            entry_paths_are_written(path, front, item.name);
            assert(path_of(fs, d, from, front, way) == front + seq!['/'] + item.name) by {
                assert(path_of(
                    fs,
                    d,
                    item.id,
                    front + seq!['/'] + item.name,
                    way.drop_first(),
                ) == front + seq!['/'] + item.name);
            }
            assert(ways.drop_last() =~= before);
            assert(item_line(fs, d, item, entry_path(path, item.name), false, o) == Ok::<
                Seq<char>,
                Fault,
            >(line_of(fs, d, from, front, o, way))) by {
                reveal_strlit("");
                reveal_strlit("\n");
                assert("\n"@ =~= seq!['\n']);
                let p = front + seq!['/'] + item.name;
                assert(p + ""@ + "\n"@ =~= p + seq!['\n']);
            }
            assert(!before.contains(way));
            assert(ways.no_duplicates());
            assert forall|w: Seq<int>| #[trigger] ways.contains(w) <==> (w.len() == 1 && w[0] < n
                && leads_to_a_match(fs, d, from, pattern, w)) by {
                if w.len() == 1 && w[0] == n - 1 {
                    assert(w =~= way);
                    assert(ways[ways.len() - 1] == w);
                }
                if before.contains(w) {
                    let k = before.index_of(w);
                    assert(ways[k] == w);
                }
                if ways.contains(w) && w != way {
                    let k = ways.index_of(w);
                    assert(before[k] == w);
                }
            }
            ways
        }
    }
}

// ---------------------------------------------------------------------
// Everything below
// ---------------------------------------------------------------------
/// The ways are all that lead to a match.
pub open spec fn are_all_matches(
    fs: Filesystem,
    d: Seq<u8>,
    from: u64,
    pattern: Option<Seq<char>>,
    ways: Seq<Seq<int>>,
) -> bool {
    &&& ways.no_duplicates()
    &&& forall|w: Seq<int>|
        #[trigger] ways.contains(w) <==> leads_to_a_match(fs, d, from, pattern, w)
}

/// The ways are all that lead to a match, of more than one step, the first one
/// to one of the first `n` entries.
spec fn longer_steps(
    fs: Filesystem,
    d: Seq<u8>,
    from: u64,
    pattern: Option<Seq<char>>,
    n: int,
    ways: Seq<Seq<int>>,
) -> bool {
    &&& ways.no_duplicates()
    &&& forall|w: Seq<int>|
        #[trigger] ways.contains(w) <==> (w.len() > 1 && w[0] < n && leads_to_a_match(
            fs,
            d,
            from,
            pattern,
            w,
        ))
}

proof fn names_below_are_plain(fs: Filesystem, d: Seq<u8>, from: u64, i: int)
    requires
        names_are_plain(fs, d, from),
        fs.entries(d, from) matches Ok(s) && 0 <= i < s.len() && s[i].name != "."@ && s[i].name
            != ".."@ && s[i].file_type == 2,
    ensures
        names_are_plain(fs, d, fs.entries(d, from)->Ok_0[i].id),
        fs.entries(d, from)->Ok_0[i].name.len() > 0,
        !fs.entries(d, from)->Ok_0[i].name.contains('/'),
{
    let item = fs.entries(d, from)->Ok_0[i];
    let one = seq![i];
    assert(led_to(fs, d, from, one) == Some(item));
    assert forall|way: Seq<int>| #[trigger] led_to(fs, d, item.id, way) is Some implies led_to(
        fs,
        d,
        item.id,
        way,
    )->Some_0.name.len() > 0 && !led_to(fs, d, item.id, way)->Some_0.name.contains('/') by {
        steps_go_on(fs, d, from, Seq::empty(), i, way);
        assert(led_to(fs, d, from, seq![i] + way) is Some);
    }
}

/// Searching finds everything: what is written are the lines of all entries
/// below the directory whose name matches, each once, however deep they are, and
/// nothing else. The path in a line is that of the directory and the names that
/// lead to the entry.
pub proof fn searches_find_everything(
    fs: Filesystem,
    d: Seq<u8>,
    from: u64,
    path: Seq<char>,
    front: Seq<char>,
    pattern: Option<Seq<char>>,
    o: MetadataOptions,
    depth: int,
) -> (ways: Seq<Seq<int>>)
    requires
        is_written(path, front),
        names_are_plain(fs, d, from),
        searched(fs, d, from, path, pattern, o, depth) is Ok,
    ensures
        are_all_matches(fs, d, from, pattern, ways),
        searched(fs, d, from, path, pattern, o, depth) == Ok::<Seq<u8>, Fault>(
            lines_of(fs, d, from, front, o, ways),
        ),
    decreases MAX_DEPTH + 2 - depth, 0int, 0int,
{
    let s = fs.entries(d, from)->Ok_0;
    let n = s.len() as int;
    assert(s.take(n) =~= s);
    let own = own_entries_are_found(fs, d, from, path, front, pattern, o, n);
    let rest = deeper_entries_are_found(fs, d, from, path, front, pattern, o, depth + 1, n);
    let ways = own + rest;
    lines_join(fs, d, from, front, o, own, rest);
    assert forall|w: Seq<int>| #[trigger] ways.contains(w) <==> leads_to_a_match(
        fs,
        d,
        from,
        pattern,
        w,
    ) by {
        if own.contains(w) {
            assert(ways[own.index_of(w)] == w);
        }
        if rest.contains(w) {
            assert(ways[own.len() + rest.index_of(w)] == w);
        }
        if ways.contains(w) {
            let k = ways.index_of(w);
            if k < own.len() {
                assert(own[k] == w);
            } else {
                assert(rest[k - own.len()] == w);
            }
        }
        if leads_to_a_match(fs, d, from, pattern, w) {
            assert(w[0] < n);
        }
    }
    assert(ways.no_duplicates()) by {
        assert forall|a: int, b: int| 0 <= a < b < ways.len() implies ways[a] != ways[b] by {
            if a < own.len() && b >= own.len() {
                assert(own.contains(own[a]));
                assert(rest.contains(rest[b - own.len()]));
            }
        }
    }
    ways
}

proof fn deeper_entries_are_found(
    fs: Filesystem,
    d: Seq<u8>,
    from: u64,
    path: Seq<char>,
    front: Seq<char>,
    pattern: Option<Seq<char>>,
    o: MetadataOptions,
    depth: int,
    n: int,
) -> (ways: Seq<Seq<int>>)
    requires
        is_written(path, front),
        names_are_plain(fs, d, from),
        depth <= MAX_DEPTH + 1,
        fs.entries(d, from) matches Ok(s) && 0 <= n <= s.len() && searched_below(
            fs,
            d,
            s.take(n),
            path,
            pattern,
            o,
            depth,
        ) is Ok,
    ensures
        longer_steps(fs, d, from, pattern, n, ways),
        searched_below(fs, d, fs.entries(d, from)->Ok_0.take(n), path, pattern, o, depth) == Ok::<
            Seq<u8>,
            Fault,
        >(lines_of(fs, d, from, front, o, ways)),
    decreases MAX_DEPTH + 2 - depth, 1int, n,
{
    let s = fs.entries(d, from)->Ok_0;
    if n == 0 {
        let ways = Seq::<Seq<int>>::empty();
        assert(s.take(0) =~= Seq::empty());
        ways
    } else {
        let t = s.take(n);
        assert(t.drop_last() =~= s.take(n - 1));
        assert(t.last() == s[n - 1]);
        let item = s[n - 1];
        if is_dot(item.name) || item.file_type != 2 {
            let ways = deeper_entries_are_found(
                fs,
                d,
                from,
                path,
                front,
                pattern,
                o,
                depth,
                n - 1,
            );
            assert forall|w: Seq<int>| w.len() > 1 && w[0] == n - 1 implies !leads_to_a_match(
                fs,
                d,
                from,
                pattern,
                w,
            ) by {}
            ways
        } else {
            names_below_are_plain(fs, d, from, n - 1);
            entry_paths_are_written(path, front, item.name);
            let below = searches_find_everything(
                fs,
                d,
                item.id,
                entry_path(path, item.name),
                front + seq!['/'] + item.name,
                pattern,
                o,
                depth,
            );
            let rest = deeper_entries_are_found(
                fs,
                d,
                from,
                path,
                front,
                pattern,
                o,
                depth,
                n - 1,
            );
            let first = after_step(n - 1, below);
            let ways = first + rest;
            assert forall|k: int| 0 <= k < below.len() implies (#[trigger] below[k]).len() > 0 by {
                assert(below.contains(below[k]));
            }
            lines_after_a_step(fs, d, from, front, o, n - 1, below);
            lines_join(fs, d, from, front, o, first, rest);
            steps_are_joined(fs, d, from, pattern, n, below, rest);
            ways
        }
    }
}

proof fn steps_are_joined(
    fs: Filesystem,
    d: Seq<u8>,
    from: u64,
    pattern: Option<Seq<char>>,
    n: int,
    below: Seq<Seq<int>>,
    rest: Seq<Seq<int>>,
)
    requires
        n > 0,
        fs.entries(d, from) matches Ok(s) && n <= s.len() && s[n - 1].name != "."@ && s[n - 1].name
            != ".."@ && s[n - 1].file_type == 2 && are_all_matches(
            fs,
            d,
            s[n - 1].id,
            pattern,
            below,
        ),
        longer_steps(fs, d, from, pattern, n - 1, rest),
    ensures
        longer_steps(fs, d, from, pattern, n, after_step(n - 1, below) + rest),
{
    let first = after_step(n - 1, below);
    let ways = first + rest;
    assert forall|w: Seq<int>| #[trigger] ways.contains(w) <==> (w.len() > 1 && w[0] < n
        && leads_to_a_match(fs, d, from, pattern, w)) by {
        joined_step(fs, d, from, pattern, n, below, w);
        if ways.contains(w) {
            let k = ways.index_of(w);
            if k < first.len() {
                assert(first[k] == w);
                assert(first.contains(w));
            } else {
                assert(rest[k - first.len()] == w);
                assert(rest.contains(w));
            }
        }
        if first.contains(w) {
            assert(ways[first.index_of(w)] == w);
        }
        if rest.contains(w) {
            assert(ways[first.len() + rest.index_of(w)] == w);
        }
    }
    assert(ways.no_duplicates()) by {
        assert forall|a: int, b: int| 0 <= a < b < ways.len() implies ways[a] != ways[b] by {
            if b < first.len() {
                assert(below[a] != below[b]);
                assert(ways[a].drop_first() =~= below[a]);
                assert(ways[b].drop_first() =~= below[b]);
            } else if a < first.len() {
                assert(ways[a][0] == n - 1);
                assert(rest.contains(rest[b - first.len()]));
            }
        }
    }
}

/// The ways whose first step leads to a directory are those that go on from it.
proof fn joined_step(
    fs: Filesystem,
    d: Seq<u8>,
    from: u64,
    pattern: Option<Seq<char>>,
    n: int,
    below: Seq<Seq<int>>,
    w: Seq<int>,
)
    requires
        n > 0,
        fs.entries(d, from) matches Ok(s) && n <= s.len() && s[n - 1].name != "."@ && s[n - 1].name
            != ".."@ && s[n - 1].file_type == 2 && are_all_matches(
            fs,
            d,
            s[n - 1].id,
            pattern,
            below,
        ),
    ensures
        after_step(n - 1, below).contains(w) <==> (w.len() > 1 && w[0] == n - 1
            && leads_to_a_match(fs, d, from, pattern, w)),
{
    let first = after_step(n - 1, below);
    let none = Seq::<char>::empty();
    if first.contains(w) {
        let k = first.index_of(w);
        assert(w == seq![n - 1] + below[k]);
        assert(below.contains(below[k]));
        assert(below[k].len() > 0);
        steps_go_on(fs, d, from, none, n - 1, below[k]);
    }
    if w.len() > 1 && w[0] == n - 1 && leads_to_a_match(fs, d, from, pattern, w) {
        let more = w.drop_first();
        assert(w =~= seq![n - 1] + more);
        steps_go_on(fs, d, from, none, n - 1, more);
        assert(below.contains(more));
        assert(first[below.index_of(more)] == w);
    }
}

// ---------------------------------------------------------------------
// Success
// ---------------------------------------------------------------------
/// Everything below a directory can be read, and nothing is too deep: each
/// directory that a way leads to has entries, and is at most so many steps away.
pub open spec fn can_be_searched(fs: Filesystem, d: Seq<u8>, from: u64, steps: int) -> bool {
    &&& 0 <= steps
    &&& fs.entries(d, from) is Ok
    &&& forall|way: Seq<int>|
        #[trigger] led_to(fs, d, from, way) matches Some(item) ==> item.file_type == 2 ==> way.len()
            <= steps && fs.entries(d, item.id) is Ok
}

proof fn below_can_be_searched(fs: Filesystem, d: Seq<u8>, from: u64, steps: int, i: int)
    requires
        can_be_searched(fs, d, from, steps),
        fs.entries(d, from) matches Ok(s) && 0 <= i < s.len() && s[i].name != "."@ && s[i].name
            != ".."@ && s[i].file_type == 2,
    ensures
        can_be_searched(fs, d, fs.entries(d, from)->Ok_0[i].id, steps - 1),
{
    let item = fs.entries(d, from)->Ok_0[i];
    assert(led_to(fs, d, from, seq![i]) == Some(item));
    assert forall|way: Seq<int>|
        (#[trigger] led_to(fs, d, item.id, way)) is Some && led_to(
            fs,
            d,
            item.id,
            way,
        )->Some_0.file_type == 2 implies way.len() <= steps - 1 && fs.entries(
        d,
        led_to(fs, d, item.id, way)->Some_0.id,
    ) is Ok by {
        steps_go_on(fs, d, from, Seq::empty(), i, way);
        assert(led_to(fs, d, from, seq![i] + way) is Some);
    }
}

proof fn own_entries_have_lines(
    fs: Filesystem,
    d: Seq<u8>,
    s: Seq<ItemView>,
    path: Seq<char>,
    pattern: Option<Seq<char>>,
    o: MetadataOptions,
)
    requires
        !o.any(),
    ensures
        matched(fs, d, s, path, pattern, o) is Ok,
    decreases s.len(),
{
    if s.len() > 0 {
        own_entries_have_lines(fs, d, s.drop_last(), path, pattern, o);
    }
}

/// A search without metadata succeeds where everything below the directory can
/// be read, down to a depth of 512.
pub proof fn searches_succeed(
    fs: Filesystem,
    d: Seq<u8>,
    from: u64,
    path: Seq<char>,
    pattern: Option<Seq<char>>,
    o: MetadataOptions,
    depth: int,
)
    requires
        !o.any(),
        0 <= depth <= 512,
        can_be_searched(fs, d, from, 512 - depth),
    ensures
        searched(fs, d, from, path, pattern, o, depth) is Ok,
    decreases 512 - depth, 1int, 0int,
{
    let s = fs.entries(d, from)->Ok_0;
    own_entries_have_lines(fs, d, s, path, pattern, o);
    searches_below_succeed(fs, d, from, path, pattern, o, depth, s.len() as int);
    assert(s.take(s.len() as int) =~= s);
}

proof fn searches_below_succeed(
    fs: Filesystem,
    d: Seq<u8>,
    from: u64,
    path: Seq<char>,
    pattern: Option<Seq<char>>,
    o: MetadataOptions,
    depth: int,
    n: int,
)
    requires
        !o.any(),
        0 <= depth <= 512,
        can_be_searched(fs, d, from, 512 - depth),
        fs.entries(d, from) matches Ok(s) && 0 <= n <= s.len(),
    ensures
        searched_below(fs, d, fs.entries(d, from)->Ok_0.take(n), path, pattern, o, depth + 1) is Ok,
    decreases 512 - depth, 0int, n,
{
    let s = fs.entries(d, from)->Ok_0;
    if n > 0 {
        let t = s.take(n);
        assert(t.drop_last() =~= s.take(n - 1));
        assert(t.last() == s[n - 1]);
        searches_below_succeed(fs, d, from, path, pattern, o, depth, n - 1);
        if !is_dot(s[n - 1].name) && s[n - 1].file_type == 2 {
            below_can_be_searched(fs, d, from, 512 - depth, n - 1);
            searches_succeed(
                fs,
                d,
                s[n - 1].id,
                entry_path(path, s[n - 1].name),
                pattern,
                o,
                depth + 1,
            );
        }
    }
}

} // verus!
