//! A sample media library: albums, discs, tracks and subtracks, where every
//! directory holds a `self.yml` about itself and an `item.yml` about its entries.
use vstd::prelude::*;

use crate::fs::{node_is_dir, FsNode, FsSnapshot};
use crate::library::{pairs_view, MediaLibrary};
use crate::metadata::MetaTarget;
use crate::path::{join, join_path, normalized};
use crate::selection::Selection;
use crate::sort_order::SortOrder;
use crate::text::concat_str;

verus! {

/// An entry of a sample tree: a directory with its entries, or a file.
pub enum Entry {
    Dir(String, Vec<Entry>),
    File(String),
}

/// The name of an entry.
pub open spec fn entry_name(e: Entry) -> Seq<char> {
    match e {
        Entry::Dir(n, _) => n@,
        Entry::File(n) => n@,
    }
}

impl Entry {
    /// The name of the entry.
    pub fn name(&self) -> (r: &String)
        ensures
            r@ == entry_name(*self),
    {
        match self {
            Entry::Dir(name, _) => name,
            Entry::File(name) => name,
        }
    }
}

/// An entry of a sample tree, as a mathematical value.
pub enum EntryV {
    Dir(Seq<char>, Seq<EntryV>),
    File(Seq<char>),
}

/// An entry as a mathematical value.
pub open spec fn entry_view(e: Entry) -> EntryV
    decreases e,
{
    match e {
        Entry::Dir(n, es) => EntryV::Dir(
            n@,
            Seq::new(
                es@.len(),
                |i: int|
                    if 0 <= i < es@.len() {
                        entry_view(es@[i])
                    } else {
                        EntryV::File(Seq::empty())
                    },
            ),
        ),
        Entry::File(n) => EntryV::File(n@),
    }
}

/// Entries as mathematical values.
pub open spec fn entries_view(es: Seq<Entry>) -> Seq<EntryV> {
    es.map_values(|e: Entry| entry_view(e))
}

/// The name of an entry value.
pub open spec fn entry_v_name(e: EntryV) -> Seq<char> {
    match e {
        EntryV::Dir(n, _) => n,
        EntryV::File(n) => n,
    }
}

/// The names of entry values.
pub open spec fn entry_v_names(es: Seq<EntryV>) -> Seq<Seq<char>> {
    es.map_values(|e: EntryV| entry_v_name(e))
}

/// Three track files.
pub open spec fn tracks3() -> Seq<EntryV> {
    seq![EntryV::File("TRACK_01"@), EntryV::File("TRACK_02"@), EntryV::File("TRACK_03"@)]
}

/// Two subtrack files.
pub open spec fn subtracks2() -> Seq<EntryV> {
    seq![EntryV::File("SUBTRACK_01"@), EntryV::File("SUBTRACK_02"@)]
}

/// The sample tree: five albums of different shapes.
pub open spec fn sample_tree() -> Seq<EntryV> {
    seq![
        EntryV::Dir(
            "ALBUM_01"@,
            seq![EntryV::Dir("DISC_01"@, tracks3()), EntryV::Dir("DISC_02"@, tracks3())],
        ),
        EntryV::Dir(
            "ALBUM_02"@,
            seq![
                EntryV::Dir("DISC_01"@, tracks3()),
                EntryV::File("TRACK_01"@),
                EntryV::File("TRACK_02"@),
                EntryV::File("TRACK_03"@),
            ],
        ),
        EntryV::Dir(
            "ALBUM_03"@,
            seq![
                EntryV::Dir("DISC_01"@, tracks3()),
                EntryV::Dir(
                    "DISC_02"@,
                    seq![
                        EntryV::Dir("TRACK_01"@, subtracks2()),
                        EntryV::Dir("TRACK_02"@, subtracks2()),
                        EntryV::File("TRACK_03"@),
                        EntryV::File("TRACK_04"@),
                    ],
                ),
            ],
        ),
        EntryV::File("ALBUM_04"@),
        EntryV::Dir(
            "ALBUM_05"@,
            seq![
                EntryV::Dir(
                    "DISC_01"@,
                    seq![
                        EntryV::File("SUBTRACK_01"@),
                        EntryV::File("SUBTRACK_02"@),
                        EntryV::File("SUBTRACK_03"@),
                    ],
                ),
                EntryV::Dir("DISC_02"@, seq![EntryV::Dir("TRACK_01"@, subtracks2())]),
                EntryV::File("TRACK_01"@),
                EntryV::File("TRACK_02"@),
                EntryV::File("TRACK_03"@),
            ],
        ),
    ]
}

fn file(name: &str) -> (r: Entry)
    ensures
        entry_view(r) == EntryV::File(name@),
{
    Entry::File(String::from_str(name))
}

fn dir(name: &str, es: Vec<Entry>) -> (r: Entry)
    ensures
        entry_view(r) == EntryV::Dir(name@, entries_view(es@)),
{
    let r = Entry::Dir(String::from_str(name), es);
    assert(entry_view(r)->Dir_1 =~= entries_view(es@));
    r
}

fn entries1(a: Entry) -> (r: Vec<Entry>)
    ensures
        entries_view(r@) == seq![entry_view(a)],
{
    let ghost va = entry_view(a);
    let mut v: Vec<Entry> = Vec::new();
    v.push(a);
    assert(entries_view(v@) =~= seq![va]);
    v
}

fn entries2(a: Entry, b: Entry) -> (r: Vec<Entry>)
    ensures
        entries_view(r@) == seq![entry_view(a), entry_view(b)],
{
    let ghost (va, vb) = (entry_view(a), entry_view(b));
    let mut v: Vec<Entry> = Vec::new();
    v.push(a);
    v.push(b);
    assert(entries_view(v@) =~= seq![va, vb]);
    v
}

fn entries3(a: Entry, b: Entry, c: Entry) -> (r: Vec<Entry>)
    ensures
        entries_view(r@) == seq![entry_view(a), entry_view(b), entry_view(c)],
{
    let ghost (va, vb, vc) = (entry_view(a), entry_view(b), entry_view(c));
    let mut v: Vec<Entry> = Vec::new();
    v.push(a);
    v.push(b);
    v.push(c);
    assert(entries_view(v@) =~= seq![va, vb, vc]);
    v
}

fn entries4(a: Entry, b: Entry, c: Entry, d: Entry) -> (r: Vec<Entry>)
    ensures
        entries_view(r@) == seq![entry_view(a), entry_view(b), entry_view(c), entry_view(d)],
{
    let ghost (va, vb, vc, vd) = (entry_view(a), entry_view(b), entry_view(c), entry_view(d));
    let mut v: Vec<Entry> = Vec::new();
    v.push(a);
    v.push(b);
    v.push(c);
    v.push(d);
    assert(entries_view(v@) =~= seq![va, vb, vc, vd]);
    v
}

fn entries5(a: Entry, b: Entry, c: Entry, d: Entry, e: Entry) -> (r: Vec<Entry>)
    ensures
        entries_view(r@) == seq![
            entry_view(a),
            entry_view(b),
            entry_view(c),
            entry_view(d),
            entry_view(e),
        ],
{
    let ghost (va, vb, vc, vd, ve) = (
        entry_view(a),
        entry_view(b),
        entry_view(c),
        entry_view(d),
        entry_view(e),
    );
    let mut v: Vec<Entry> = Vec::new();
    v.push(a);
    v.push(b);
    v.push(c);
    v.push(d);
    v.push(e);
    assert(entries_view(v@) =~= seq![va, vb, vc, vd, ve]);
    v
}

fn three_tracks() -> (r: Vec<Entry>)
    ensures
        entries_view(r@) == tracks3(),
{
    entries3(file("TRACK_01"), file("TRACK_02"), file("TRACK_03"))
}

fn two_subtracks() -> (r: Vec<Entry>)
    ensures
        entries_view(r@) == subtracks2(),
{
    entries2(file("SUBTRACK_01"), file("SUBTRACK_02"))
}

/// The sample tree: five albums of different shapes.
pub fn default_dir_hierarchy() -> (r: Vec<Entry>)
    ensures
        entries_view(r@) == sample_tree(),
{
    // A well-behaved album.
    let a1 = dir("ALBUM_01", entries2(dir("DISC_01", three_tracks()), dir("DISC_02", three_tracks())));

    // An album with a disc and tracks, and loose tracks not on a disc.
    let a2 = dir(
        "ALBUM_02",
        entries4(dir("DISC_01", three_tracks()), file("TRACK_01"), file("TRACK_02"), file("TRACK_03")),
    );

    // An album with discs and tracks, and subtracks on one disc.
    let d2 = entries4(
        dir("TRACK_01", two_subtracks()),
        dir("TRACK_02", two_subtracks()),
        file("TRACK_03"),
        file("TRACK_04"),
    );
    let a3 = dir("ALBUM_03", entries2(dir("DISC_01", three_tracks()), dir("DISC_02", d2)));

    // An album that consists of one file.
    let a4 = file("ALBUM_04");

    // A very messed-up album.
    let d51 = entries3(file("SUBTRACK_01"), file("SUBTRACK_02"), file("SUBTRACK_03"));
    let d52 = entries1(dir("TRACK_01", two_subtracks()));
    let a5 = dir(
        "ALBUM_05",
        entries5(dir("DISC_01", d51), dir("DISC_02", d52), file("TRACK_01"), file("TRACK_02"), file("TRACK_03")),
    );

    entries5(a1, a2, a3, a4, a5)
}

/// The text of the `self.yml` of the directory named `identifier`.
pub open spec fn self_meta_text(identifier: Seq<char>) -> Seq<char> {
    "const_key: const_val\nself_key: self_val\n"@ + identifier + "_self_key: "@ + identifier
        + "_self_val\n"@
}

/// The lines of `item.yml` for the entry named `name`.
pub open spec fn item_meta_text(name: Seq<char>) -> Seq<char> {
    "- const_key: const_val\n  item_key: item_val\n  "@ + name + "_item_key: "@ + name
        + "_item_val\n"@
}

/// The text of `item.yml` for entries with these names: their lines in turn.
pub open spec fn item_meta_all(names: Seq<Seq<char>>) -> Seq<char>
    decreases names.len(),
{
    if names.len() == 0 {
        Seq::empty()
    } else {
        item_meta_all(names.drop_last()) + item_meta_text(names.last())
    }
}

/// A file of the snapshot at `path` (normalised) with `text`.
pub open spec fn text_file(path: Seq<char>, text: Seq<char>) -> FsNode {
    FsNode { path: normalized(path), is_dir: false, mtime: None, contents: Some(text) }
}

/// A directory of the snapshot at `path` (normalised).
pub open spec fn dir_node(path: Seq<char>) -> FsNode {
    FsNode { path: normalized(path), is_dir: true, mtime: None, contents: None }
}

/// The nodes recorded for the directory at `dir` named `id` with entries `es`:
/// its `self.yml`, the nodes of the entries in turn, its `item.yml`.
pub open spec fn dir_nodes(id: Seq<char>, dir: Seq<char>, es: Seq<EntryV>) -> Seq<FsNode>
    decreases es, 1int,
{
    seq![text_file(join_path(dir, "self.yml"@), self_meta_text(id))] + entries_nodes(dir, es)
        + seq![text_file(join_path(dir, "item.yml"@), item_meta_all(entry_v_names(es)))]
}

/// The nodes recorded for the entries `es` of the directory at `dir`, in turn.
pub open spec fn entries_nodes(dir: Seq<char>, es: Seq<EntryV>) -> Seq<FsNode>
    decreases es, 0int,
{
    if es.len() == 0 {
        Seq::empty()
    } else {
        proof {
            assert(decreases_to!(es => es.subrange(0, es.len() - 1)));
            assert(decreases_to!(es => es[es.len() - 1]));
        }
        entries_nodes(dir, es.subrange(0, es.len() - 1)) + entry_nodes(dir, es[es.len() - 1])
    }
}

/// The nodes recorded for one entry of the directory at `dir`: an empty
/// `flac` file, or a directory followed by its own nodes.
pub open spec fn entry_nodes(dir: Seq<char>, e: EntryV) -> Seq<FsNode>
    decreases e, 0int,
{
    match e {
        EntryV::File(n) => seq![text_file(join_path(dir, n + ".flac"@), Seq::empty())],
        EntryV::Dir(n, sub) => seq![dir_node(join_path(dir, n))] + dir_nodes(
            n,
            join_path(dir, n),
            sub,
        ),
    }
}

/// The nodes of the sample tree under the root `root`.
pub open spec fn sample_nodes(root: Seq<char>) -> Seq<FsNode> {
    seq![dir_node(root)] + dir_nodes("ROOT"@, root, sample_tree())
}

/// Records `subentries` under the directory `target_dir_path` (named
/// `identifier`): first its `self.yml`, then the entries (media files get the
/// `flac` extension, directories their own entries), last its `item.yml`.
fn create_test_dir_entries(
    identifier: &str,
    target_dir_path: &str,
    subentries: &Vec<Entry>,
    fs: &mut FsSnapshot,
)
    ensures
        final(fs)@ == old(fs)@ + dir_nodes(
            identifier@,
            target_dir_path@,
            entries_view(subentries@),
        ),
    decreases subentries,
{
    let ghost dirp = target_dir_path@;
    let ghost ev = entries_view(subentries@);
    let t1 = concat_str("const_key: const_val\nself_key: self_val\n", identifier);
    let t2 = concat_str(t1.as_str(), "_self_key: ");
    let t3 = concat_str(t2.as_str(), identifier);
    let self_text = concat_str(t3.as_str(), "_self_val\n");
    let self_meta_path = join(target_dir_path, "self.yml");
    assert(self_text@ =~= self_meta_text(identifier@));
    let ghost start = fs@;
    let ghost self_node = text_file(join_path(dirp, "self.yml"@), self_meta_text(identifier@));
    fs.add_file(self_meta_path.as_str(), None, Some(self_text));

    let mut item_meta_contents = String::new();
    let mut i: usize = 0;
    let ghost names = entry_v_names(ev);
    assert(names.take(0) =~= Seq::<Seq<char>>::empty());
    assert(item_meta_contents@ =~= item_meta_all(names.take(0)));
    assert(ev.take(0) =~= Seq::<EntryV>::empty());
    assert(fs@ =~= start + seq![self_node] + entries_nodes(dirp, ev.take(0)));
    while i < subentries.len()
        invariant
            i <= subentries.len(),
            dirp == target_dir_path@,
            ev == entries_view(subentries@),
            names == entry_v_names(ev),
            fs@ == start + seq![self_node] + entries_nodes(dirp, ev.take(i as int)),
            item_meta_contents@ == item_meta_all(names.take(i as int)),
        decreases subentries.len() - i,
    {
        let ghost mid = fs@;
        let ghost e = ev[i as int];
        assert(e == entry_view(subentries@[i as int]));
        assert(ev.take(i + 1).subrange(0, i as int) =~= ev.take(i as int));
        assert(ev.take(i + 1)[i as int] == e);
        assert(entries_nodes(dirp, ev.take(i + 1)) == entries_nodes(dirp, ev.take(i as int))
            + entry_nodes(dirp, e));
        match &subentries[i] {
            Entry::File(name) => {
                let file_name = concat_str(name.as_str(), ".flac");
                let file_path = join(target_dir_path, file_name.as_str());
                fs.add_file(file_path.as_str(), None, Some(String::new()));
                assert(fs@ =~= mid + entry_nodes(dirp, e));
            },
            Entry::Dir(name, new_subentries) => {
                let new_dir_path = join(target_dir_path, name.as_str());
                fs.add_dir(new_dir_path.as_str(), None);
                let ghost mid2 = fs@;
                proof {
                    assert(decreases_to!(*subentries => subentries@));
                    assert(decreases_to!(subentries@ => subentries@[i as int]));
                    assert(decreases_to!(subentries@[i as int] => subentries@[i as int]->Dir_1));
                    assert(e->Dir_1 =~= entries_view(new_subentries@));
                }
                create_test_dir_entries(name.as_str(), new_dir_path.as_str(), new_subentries, fs);
                assert(fs@ =~= mid + entry_nodes(dirp, e));
            },
        }
        assert(fs@ =~= start + seq![self_node] + entries_nodes(dirp, ev.take(i + 1)));
        let name = subentries[i].name();
        let e1 = concat_str("- const_key: const_val\n  item_key: item_val\n  ", name.as_str());
        let e2 = concat_str(e1.as_str(), "_item_key: ");
        let e3 = concat_str(e2.as_str(), name.as_str());
        let entry_string = concat_str(e3.as_str(), "_item_val\n");
        assert(names[i as int] == entry_v_name(e));
        assert(entry_string@ =~= item_meta_text(names[i as int]));
        assert(names.take(i + 1).drop_last() =~= names.take(i as int));
        assert(names.take(i + 1).last() == names[i as int]);
        item_meta_contents = concat_str(item_meta_contents.as_str(), entry_string.as_str());
        i += 1;
    }
    assert(names.take(subentries.len() as int) =~= names);
    assert(ev.take(subentries.len() as int) =~= ev);
    let item_meta_path = join(target_dir_path, "item.yml");
    fs.add_file(item_meta_path.as_str(), None, Some(item_meta_contents));
    assert(fs@ =~= start + dir_nodes(identifier@, dirp, ev));
}

/// A snapshot of the sample tree under `/tmp/<name>`, and that root path.
pub fn create_temp_media_test_dir(name: &str) -> (r: (String, FsSnapshot))
    ensures
        r.0@ == "/tmp/"@ + name@,
        r.1@ == sample_nodes(r.0@),
        node_is_dir(r.1@, normalized(r.0@)),
{
    let root = concat_str("/tmp/", name);
    let mut fs = FsSnapshot::new();
    fs.add_dir(root.as_str(), None);
    let ghost first = fs@;
    let entries = default_dir_hierarchy();
    create_test_dir_entries("ROOT", root.as_str(), &entries, &mut fs);
    assert(fs@ =~= sample_nodes(root@));
    assert(fs@[0] == first[0]);
    proof {
        crate::path::lemma_normalized_idempotent(root@);
    }
    assert(crate::fs::find_node(fs@, normalized(normalized(root@))) == Some(first[0]));
    (root, fs)
}

/// The sample library: the sample tree, with `self.yml` about a directory and
/// `item.yml` about its entries, directories and `flac` files as items, in
/// name order.
pub fn default_setup(name: &str) -> (r: (String, MediaLibrary))
    ensures
        r.0@ == "/tmp/"@ + name@,
        r.1@.root == normalized(r.0@),
        r.1@.nodes == sample_nodes(r.0@),
        r.1@.pairs == seq![("self.yml"@, MetaTarget::Contains), ("item.yml"@, MetaTarget::Siblings)],
        r.1@.order == SortOrder::Name,
        r.1@.sel matches Selection::Or(a, b) && *a is IsDir && (*b matches Selection::Ext(e) && e@
            == "flac"@),
{
    let (root, fs) = create_temp_media_test_dir(name);
    let mut pairs: Vec<(String, MetaTarget)> = Vec::new();
    pairs.push((String::from_str("self.yml"), MetaTarget::Contains));
    pairs.push((String::from_str("item.yml"), MetaTarget::Siblings));
    let selection = Selection::Or(
        Box::new(Selection::IsDir),
        Box::new(Selection::Ext(String::from_str("flac"))),
    );
    let ghost pv = pairs_view(pairs@);
    assert(pv =~= seq![("self.yml"@, MetaTarget::Contains), ("item.yml"@, MetaTarget::Siblings)]);
    let media_lib = MediaLibrary::new(root.as_str(), fs, pairs, selection, SortOrder::Name).unwrap();
    (root, media_lib)
}

} // verus!
