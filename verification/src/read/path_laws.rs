//! Where paths lead, through the entries that their parts name, and what is
//! listed of a directory.
use super::cli::MetadataOptions;
use super::show::{followed, item_line, listed, named, Filesystem, ItemView};
use crate::error::Fault;
use vstd::prelude::*;
use vstd::utf8::encode_utf8;

verus! {
/// Whether an entry of a directory is the first with its name.
pub open spec fn is_first(s: Seq<ItemView>, name: Seq<char>, i: int) -> bool {
    &&& 0 <= i < s.len()
    &&& s[i].name == name
    &&& forall|j: int| 0 <= j < i ==> (#[trigger] s[j]).name != name
}

proof fn first_is_named(s: Seq<ItemView>, name: Seq<char>, from: int, i: int)
    requires
        is_first(s, name, i),
        0 <= from <= i,
    ensures
        named(s, name, from) == Some(s[i]),
    decreases i - from,
{
    if from < i {
        assert(s[from].name != name);
        first_is_named(s, name, from + 1, i);
    }
}

proof fn none_is_named(s: Seq<ItemView>, name: Seq<char>, from: int)
    requires
        forall|j: int| 0 <= j < s.len() ==> (#[trigger] s[j]).name != name,
        0 <= from,
    ensures
        named(s, name, from) is None,
    decreases s.len() - from,
{
    if from < s.len() {
        assert(s[from].name != name);
        none_is_named(s, name, from + 1);
    }
}

/// A path leads from the root through the entries that its parts name, one
/// after the other: `ids` are the files on the way, and `places` where each is
/// found in the directory before it.
pub proof fn paths_lead_to_their_files(
    fs: Filesystem,
    d: Seq<u8>,
    parts: Seq<Seq<char>>,
    ids: Seq<u64>,
    places: Seq<int>,
)
    requires
        ids.len() == parts.len() + 1,
        places.len() == parts.len(),
        forall|k: int|
            0 <= k < parts.len() ==> fs.entries(d, #[trigger] ids[k]) is Ok && is_first(
                fs.entries(d, ids[k])->Ok_0,
                parts[k],
                places[k],
            ) && fs.entries(d, ids[k])->Ok_0[places[k]].id == ids[k + 1],
    ensures
        followed(fs, d, ids[0], parts) == Ok::<u64, Fault>(ids.last()),
    decreases parts.len(),
{
    if parts.len() > 0 {
        let n = parts.len() - 1;
        let front = ids.drop_last();
        assert forall|k: int| 0 <= k < n implies fs.entries(d, #[trigger] front[k]) is Ok
            && is_first(fs.entries(d, front[k])->Ok_0, parts.drop_last()[k], places.drop_last()[k])
            && fs.entries(d, front[k])->Ok_0[places.drop_last()[k]].id == front[k + 1] by {
            assert(front[k] == ids[k]);
        }
        paths_lead_to_their_files(fs, d, parts.drop_last(), front, places.drop_last());
        assert(front.last() == ids[n]);
        first_is_named(fs.entries(d, ids[n])->Ok_0, parts[n], 0, places[n]);
    }
}

/// A path that goes on, behind some of its parts, with a name that no entry of
/// the directory reached has, leads nowhere.
pub proof fn other_paths_lead_nowhere(
    fs: Filesystem,
    d: Seq<u8>,
    from: u64,
    reached: u64,
    parts: Seq<Seq<char>>,
    n: int,
)
    requires
        0 <= n < parts.len(),
        followed(fs, d, from, parts.take(n)) == Ok::<u64, Fault>(reached),
        fs.entries(d, reached) is Ok,
        forall|j: int|
            0 <= j < fs.entries(d, reached)->Ok_0.len() ==> (#[trigger] fs.entries(
                d,
                reached,
            )->Ok_0[j]).name != parts[n],
    ensures
        followed(fs, d, from, parts) is Err,
    decreases parts.len(),
{
    if n == parts.len() - 1 {
        assert(parts.drop_last() =~= parts.take(n));
        none_is_named(fs.entries(d, reached)->Ok_0, parts[n], 0);
    } else {
        assert(parts.drop_last().take(n) =~= parts.take(n));
        other_paths_lead_nowhere(fs, d, from, reached, parts.drop_last(), n);
    }
}

// ---------------------------------------------------------------------
// Lists
// ---------------------------------------------------------------------
/// Whether an entry is neither the directory itself nor its parent.
pub open spec fn is_shown(item: ItemView) -> bool {
    item.name != "."@ && item.name != ".."@
}

/// The line of an entry without metadata: its name, with a slash behind that of
/// a directory.
pub open spec fn name_line(item: ItemView) -> Seq<u8> {
    encode_utf8(
        item.name + (if item.file_type == 2 {
            "/"@
        } else {
            ""@
        }) + "\n"@,
    )
}

/// A list has a line for every entry of the directory but `.` and `..`, in the
/// order of the directory, and nothing else.
pub proof fn lists_show_every_entry(
    fs: Filesystem,
    d: Seq<u8>,
    s: Seq<ItemView>,
    o: MetadataOptions,
)
    requires
        forall|i: int|
            0 <= i < s.len() && is_shown(#[trigger] s[i]) ==> item_line(
                fs,
                d,
                s[i],
                s[i].name,
                true,
                o,
            ) is Ok,
    ensures
        listed(fs, d, s, o) == Ok::<Seq<u8>, Fault>(
            s.filter(|item: ItemView| is_shown(item)).map_values(
                |item: ItemView| encode_utf8(item_line(fs, d, item, item.name, true, o)->Ok_0),
            ).flatten(),
        ),
    decreases s.len(),
{
    reveal(Seq::filter);
    let shown = |item: ItemView| is_shown(item);
    let line = |item: ItemView| encode_utf8(item_line(fs, d, item, item.name, true, o)->Ok_0);
    if s.len() > 0 {
        let front = s.drop_last();
        assert forall|i: int| 0 <= i < front.len() && is_shown(#[trigger] front[i]) implies item_line(
            fs,
            d,
            front[i],
            front[i].name,
            true,
            o,
        ) is Ok by {
            assert(front[i] == s[i]);
        }
        lists_show_every_entry(fs, d, front, o);
        assert(s.last() == s[s.len() - 1]);
        if is_shown(s.last()) {
            assert(front.filter(shown).push(s.last()).map_values(line) =~= front.filter(
                shown,
            ).map_values(line).push(line(s.last())));
            front.filter(shown).map_values(line).lemma_flatten_push(line(s.last()));
        }
    } else {
        assert(s.filter(shown).map_values(line) =~= Seq::empty());
        assert(Seq::<Seq<u8>>::empty().flatten() =~= Seq::empty());
    }
}

/// A list for which no metadata is asked never fails, and has the names.
pub proof fn lists_are_names(fs: Filesystem, d: Seq<u8>, s: Seq<ItemView>, o: MetadataOptions)
    requires
        !o.file_type && !o.content_type && !o.owner && !o.permissions,
        !o.numeric_permissions && !o.size && !o.human_size && !o.context,
    ensures
        listed(fs, d, s, o) == Ok::<Seq<u8>, Fault>(
            s.filter(|item: ItemView| is_shown(item)).map_values(
                |item: ItemView| name_line(item),
            ).flatten(),
        ),
{
    lists_show_every_entry(fs, d, s, o);
    let f = s.filter(|item: ItemView| is_shown(item));
    assert(f.map_values(
        |item: ItemView| encode_utf8(item_line(fs, d, item, item.name, true, o)->Ok_0),
    ) =~= f.map_values(|item: ItemView| name_line(item)));
}

} // verus!
