//! Assembly of a portable modpack archive: a metadata payload under a fixed
//! entry name, the direct file children of an optional extra-files directory
//! flattened under a fixed subpath, and an optional overrides directory
//! mirrored recursively with forward-slash separators, then written through
//! an in-memory zip container.

use vstd::prelude::*;
use vstd::string::StringExecFns;

verus! {

/// A file, as data: its base name and its contents.
pub struct FileNode {
    pub name: String,
    pub data: Vec<u8>,
}

/// A named subdirectory and the tree under it.
pub struct DirNode {
    pub name: String,
    pub tree: DirTree,
}

/// A directory's contents: direct file children and subdirectories.
pub struct DirTree {
    pub files: Vec<FileNode>,
    pub dirs: Vec<DirNode>,
}

/// One archive entry: its full name (forward-slash separated), its bytes,
/// and whether it is an explicit directory entry.
pub struct ArchiveEntry {
    pub name: String,
    pub data: Vec<u8>,
    pub is_dir: bool,
}

/// The mathematical shape of one archive entry: name, data, directory flag.
pub open spec fn entry_model(e: ArchiveEntry) -> (Seq<char>, Seq<u8>, bool) {
    (e.name@, e.data@, e.is_dir)
}

pub open spec fn entries_model(es: Seq<ArchiveEntry>) -> Seq<(Seq<char>, Seq<u8>, bool)> {
    es.map_values(|e: ArchiveEntry| entry_model(e))
}

/// The entry a file contributes under a prefix.
pub open spec fn file_entry(prefix: Seq<char>, f: FileNode) -> (Seq<char>, Seq<u8>, bool) {
    (prefix + f.name@, f.data@, false)
}

/// The entries of a list of files under one prefix, in order.
pub open spec fn files_entries(prefix: Seq<char>, files: Seq<FileNode>) -> Seq<
    (Seq<char>, Seq<u8>, bool),
>
    decreases files.len(),
{
    if files.len() == 0 {
        Seq::empty()
    } else {
        files_entries(prefix, files.drop_last()).push(file_entry(prefix, files.last()))
    }
}

/// The prefix a subdirectory's entries carry: the parent prefix, the
/// directory's name, and a forward slash.
pub open spec fn child_prefix(prefix: Seq<char>, name: Seq<char>) -> Seq<char> {
    prefix + name + "/"@
}

/// The entries of a whole tree under a prefix: its files first, then each
/// subdirectory as an explicit directory entry followed by its own entries.
pub open spec fn tree_entries(prefix: Seq<char>, t: DirTree) -> Seq<(Seq<char>, Seq<u8>, bool)>
    decreases t,
{
    files_entries(prefix, t.files@) + dirs_entries(prefix, t.dirs@)
}

pub open spec fn dirs_entries(prefix: Seq<char>, dirs: Seq<DirNode>) -> Seq<
    (Seq<char>, Seq<u8>, bool),
>
    decreases dirs,
{
    if dirs.len() == 0 {
        Seq::empty()
    } else {
        let d = dirs.last();
        let cp = child_prefix(prefix, d.name@);
        dirs_entries(prefix, dirs.drop_last()) + seq![(cp, Seq::<u8>::empty(), true)]
            + tree_entries(cp, d.tree)
    }
}

/// The entry holding the metadata payload, at the container's root.
pub open spec fn metadata_entry(metadata: Seq<u8>) -> (Seq<char>, Seq<u8>, bool) {
    ("modrinth.index.json"@, metadata, false)
}

/// The whole planned entry sequence: metadata, then the extra-files
/// directory's direct file children flattened under the overrides prefix,
/// then the overrides tree mirrored under the same prefix. Only the extra
/// directory's direct files contribute: nothing under its subdirectories.
pub open spec fn plan_spec(
    metadata: Seq<u8>,
    extras: Option<DirTree>,
    overrides: Option<DirTree>,
) -> Seq<(Seq<char>, Seq<u8>, bool)> {
    seq![metadata_entry(metadata)] + (match extras {
        Option::Some(t) => files_entries("overrides/"@, t.files@),
        Option::None => Seq::empty(),
    }) + (match overrides {
        Option::Some(t) => tree_entries("overrides/"@, t),
        Option::None => Seq::empty(),
    })
}

/// Extra-files enumeration is non-recursive: two extra-files directories with
/// the same direct file children plan the same entries, whatever stands in
/// their subdirectories.
pub proof fn lemma_extras_nonrecursive(
    metadata: Seq<u8>,
    t1: DirTree,
    t2: DirTree,
    overrides: Option<DirTree>,
)
    requires
        t1.files@ == t2.files@,
    ensures
        plan_spec(metadata, Some(t1), overrides) == plan_spec(metadata, Some(t2), overrides),
{
}

proof fn lemma_files_entries_take_step(prefix: Seq<char>, files: Seq<FileNode>, i: int)
    requires
        0 <= i < files.len(),
    ensures
        files_entries(prefix, files.take(i + 1)) == files_entries(prefix, files.take(i)).push(
            file_entry(prefix, files[i]),
        ),
{
    assert(files.take(i + 1).drop_last() =~= files.take(i));
    assert(files.take(i + 1).last() == files[i]);
}

proof fn lemma_dirs_entries_take_step(prefix: Seq<char>, dirs: Seq<DirNode>, i: int)
    requires
        0 <= i < dirs.len(),
    ensures
        dirs_entries(prefix, dirs.take(i + 1)) == dirs_entries(prefix, dirs.take(i)) + seq![
            (child_prefix(prefix, dirs[i].name@), Seq::<u8>::empty(), true),
        ] + tree_entries(child_prefix(prefix, dirs[i].name@), dirs[i].tree),
{
    assert(dirs.take(i + 1).drop_last() =~= dirs.take(i));
    assert(dirs.take(i + 1).last() == dirs[i]);
}

proof fn lemma_entries_model_push(es: Seq<ArchiveEntry>, e: ArchiveEntry)
    ensures
        entries_model(es.push(e)) == entries_model(es).push(entry_model(e)),
{
    assert(entries_model(es.push(e)) =~= entries_model(es).push(entry_model(e)));
}

/// Append the entries of `files` under `prefix`, in order.
#[verifier::loop_isolation(false)]
fn emit_files(prefix: &str, files: Vec<FileNode>, out: &mut Vec<ArchiveEntry>)
    ensures
        entries_model(final(out)@) == entries_model(old(out)@) + files_entries(prefix@, files@),
{
    let ghost all = files@;
    let mut files = files;
    let total: usize = files.len();
    let mut i: usize = 0;
    while i < total
        invariant
            files@ == all.skip(i as int),
            0 <= i <= total,
            entries_model(out@) == entries_model(old(out)@) + files_entries(
                prefix@,
                all.take(i as int),
            ),
        decreases total - i,
    {
        let f = files.remove(0);
        assert(f == all[i as int]);
        assert(files@ =~= all.skip(i + 1));
        let mut name = prefix.to_owned();
        name.append(f.name.as_str());
        let e = ArchiveEntry { name, data: f.data, is_dir: false };
        assert(entry_model(e) == file_entry(prefix@, all[i as int]));
        proof {
            lemma_files_entries_take_step(prefix@, all, i as int);
            lemma_entries_model_push(out@, e);
        }
        out.push(e);
        i = i + 1;
    }
    proof {
        assert(all.take(total as int) =~= all);
    }
}

/// Append the entries of the whole tree under `prefix`: the files first,
/// then each subdirectory's explicit entry and, recursively, its contents.
#[verifier::loop_isolation(false)]
fn emit_tree(prefix: &str, t: DirTree, out: &mut Vec<ArchiveEntry>)
    ensures
        entries_model(final(out)@) == entries_model(old(out)@) + tree_entries(prefix@, t),
    decreases t,
{
    let ghost t0 = t;
    let DirTree { files, dirs } = t;
    emit_files(prefix, files, out);
    let ghost alld = dirs@;
    let mut dirs = dirs;
    let total: usize = dirs.len();
    let mut i: usize = 0;
    while i < total
        invariant
            dirs@ == alld.skip(i as int),
            0 <= i <= total,
            entries_model(out@) == entries_model(old(out)@) + files_entries(prefix@, t0.files@)
                + dirs_entries(prefix@, alld.take(i as int)),
        decreases total - i,
    {
        let d = dirs.remove(0);
        assert(d == alld[i as int]);
        assert(dirs@ =~= alld.skip(i + 1));
        let mut cp = prefix.to_owned();
        cp.append(d.name.as_str());
        cp.append("/");
        assert(cp@ == child_prefix(prefix@, d.name@));
        let e = ArchiveEntry { name: cp.clone(), data: Vec::new(), is_dir: true };
        proof {
            lemma_entries_model_push(out@, e);
        }
        out.push(e);
        proof {
            assert(t0.dirs@[i as int] == d);
            assert(decreases_to!(t0 => t0.dirs));
            assert(decreases_to!(t0.dirs => t0.dirs@));
            assert(decreases_to!(t0.dirs@ => t0.dirs@[i as int]));
            assert(decreases_to!(t0.dirs@[i as int] => t0.dirs@[i as int].tree));
            assert(decreases_to!(t0 => d.tree));
        }
        emit_tree(cp.as_str(), d.tree, out);
        proof {
            lemma_dirs_entries_take_step(prefix@, alld, i as int);
            assert(entries_model(out@) =~= entries_model(old(out)@) + files_entries(
                prefix@,
                t0.files@,
            ) + dirs_entries(prefix@, alld.take(i + 1)));
        }
        i = i + 1;
    }
    proof {
        assert(alld.take(total as int) =~= alld);
    }
}

/// Plan the whole archive: the metadata entry, the extra files flattened
/// under the overrides prefix (direct children only), and the overrides tree
/// mirrored under the same prefix.
pub fn plan_modpack_entries(
    metadata: Vec<u8>,
    extras: Option<DirTree>,
    overrides: Option<DirTree>,
) -> (r: Vec<ArchiveEntry>)
    ensures
        entries_model(r@) == plan_spec(metadata@, extras, overrides),
{
    let ghost gmeta = metadata@;
    let mut out: Vec<ArchiveEntry> = Vec::new();
    let e = ArchiveEntry { name: "modrinth.index.json".to_owned(), data: metadata, is_dir: false };
    proof {
        lemma_entries_model_push(out@, e);
    }
    out.push(e);
    assert(entries_model(out@) =~= seq![metadata_entry(gmeta)]);
    match extras {
        Option::Some(t) => {
            let DirTree { files, dirs: _ } = t;
            emit_files("overrides/", files, &mut out);
        },
        Option::None => {},
    }
    match overrides {
        Option::Some(t) => {
            emit_tree("overrides/", t, &mut out);
        },
        Option::None => {},
    }
    assert(entries_model(out@) =~= plan_spec(gmeta, extras, overrides));
    out
}

/// An archive writer over an in-memory buffer. The zip writer itself cannot
/// be declared to the verifier (its type parameter is bound by io traits), so
/// it is held opaque in a field.
#[verifier::external_body]
pub struct ArchiveWriter {
    inner: zip::ZipWriter<std::io::Cursor<Vec<u8>>>,
}

#[verifier::external_type_specification]
#[verifier::external_body]
pub struct ExZipError(zip::result::ZipError);

/// The entries an in-memory archive writer holds so far, in the order they
/// were started: name, bytes, directory flag.
pub uninterp spec fn written_entries(w: ArchiveWriter) -> Seq<(Seq<char>, Seq<u8>, bool)>;

/// The container bytes the writer produces for a given entry sequence. With
/// fixed options (constant timestamps, stored entries, insertion-ordered
/// central directory) they are a function of the entries alone for any one
/// build of this library; the header's system byte follows the compile
/// target.
pub uninterp spec fn encoded_archive(entries: Seq<(Seq<char>, Seq<u8>, bool)>) -> Seq<u8>;

/// Relies on zip::ZipWriter::new: a fresh writer over an in-memory buffer
/// holds no entries.
#[verifier::external_body]
fn new_writer() -> (w: ArchiveWriter)
    ensures
        written_entries(w) == Seq::<(Seq<char>, Seq<u8>, bool)>::empty(),
{
    ArchiveWriter { inner: zip::ZipWriter::new(std::io::Cursor::new(Vec::new())) }
}

/// Relies on zip::ZipWriter::start_file and std::io::Write::write_all: on
/// success the archive gains exactly one file entry carrying the given name
/// and bytes. Over an in-memory buffer the write fails only on a name already
/// in the archive, a name over 65535 bytes (at most four per character), or
/// data past the four-gigabyte threshold; within those limits it succeeds.
#[verifier::external_body]
fn add_file_entry(w: &mut ArchiveWriter, name: &str, data: &Vec<u8>) -> (r: Result<(), zip::result::ZipError>)
    ensures
        r is Ok ==> written_entries(*final(w)) == written_entries(*old(w)).push(
            (name@, data@, false),
        ),
        name@.len() <= 16383 && data@.len() <= 0xFFFF_FFFF && !has_entry_named(
            written_entries(*old(w)),
            name@,
        ) ==> r is Ok,
{
    w.inner.start_file(name, zip::write::SimpleFileOptions::default())?;
    std::io::Write::write_all(&mut w.inner, data.as_slice())?;
    Ok(())
}

/// Relies on zip::ZipWriter::add_directory: a name already ending in a slash
/// is taken as it stands, so on success the archive gains exactly one empty
/// directory entry of that name. Over an in-memory buffer it fails only on a
/// name already in the archive or a name over 65535 bytes (at most four per
/// character); within those limits it succeeds.
#[verifier::external_body]
fn add_dir_entry(w: &mut ArchiveWriter, name: &str) -> (r: Result<(), zip::result::ZipError>)
    requires
        name@.len() > 0,
        name@.last() == '/',
    ensures
        r is Ok ==> written_entries(*final(w)) == written_entries(*old(w)).push(
            (name@, Seq::<u8>::empty(), true),
        ),
        name@.len() <= 16383 && !has_entry_named(
            written_entries(*old(w)),
            name@,
        ) ==> r is Ok,
{
    w.inner.add_directory(name, zip::write::SimpleFileOptions::default())
}

/// Relies on zip::ZipWriter::finish over an in-memory buffer: it writes the
/// central directory and hands the buffer back. It succeeds on every writer
/// this library can hold: writes to an in-memory buffer do not fail, and an
/// entry whose name would not serialize is removed again by the failing call
/// that tried to add it, so the central directory serializes in full.
#[verifier::external_body]
fn finish_writer(w: ArchiveWriter) -> (r: Result<Vec<u8>, zip::result::ZipError>)
    ensures
        r is Ok,
        r matches Ok(bytes) ==> bytes@ == encoded_archive(written_entries(w)),
{
    match w.inner.finish() {
        Ok(cursor) => Ok(cursor.into_inner()),
        Err(e) => Err(e),
    }
}

/// The entries left after every entry named `name` is dropped.
pub open spec fn drop_name(s: Seq<(Seq<char>, Seq<u8>, bool)>, name: Seq<char>) -> Seq<
    (Seq<char>, Seq<u8>, bool),
>
    decreases s.len(),
{
    if s.len() == 0 {
        s
    } else {
        let rest = drop_name(s.drop_last(), name);
        if s.last().0 == name {
            rest
        } else {
            rest.push(s.last())
        }
    }
}

/// Last write wins: for each name, only the latest entry of that name stays,
/// at the position of its last occurrence.
pub open spec fn dedup_spec(s: Seq<(Seq<char>, Seq<u8>, bool)>) -> Seq<(Seq<char>, Seq<u8>, bool)>
    decreases s.len(),
{
    if s.len() == 0 {
        s
    } else {
        drop_name(dedup_spec(s.drop_last()), s.last().0).push(s.last())
    }
}

/// Drop every entry whose name reads `name`, keeping the order of the rest.
#[verifier::loop_isolation(false)]
fn remove_named(entries: Vec<ArchiveEntry>, name: &String) -> (r: Vec<ArchiveEntry>)
    ensures
        entries_model(r@) == drop_name(entries_model(entries@), name@),
{
    let ghost all = entries@;
    let mut entries = entries;
    let mut r: Vec<ArchiveEntry> = Vec::new();
    let total: usize = entries.len();
    let mut i: usize = 0;
    while i < total
        invariant
            entries@ == all.skip(i as int),
            0 <= i <= total,
            entries_model(r@) == drop_name(entries_model(all.take(i as int)), name@),
        decreases total - i,
    {
        let e = entries.remove(0);
        assert(e == all[i as int]);
        assert(entries@ =~= all.skip(i + 1));
        proof {
            assert(entries_model(all.take(i + 1)).drop_last() =~= entries_model(
                all.take(i as int),
            ));
            assert(entries_model(all.take(i + 1)).last() == entry_model(all[i as int]));
        }
        if e.name == *name {
            proof {
                assert(entry_model(all[i as int]).0 == name@);
            }
        } else {
            proof {
                lemma_entries_model_push(r@, e);
            }
            r.push(e);
        }
        i = i + 1;
    }
    proof {
        assert(all.take(total as int) =~= all);
        assert(entries_model(all.take(total as int)) =~= entries_model(all));
    }
    r
}

/// Resolve entry-name collisions the way the written container reads back:
/// the last write wins, earlier entries of the same name are dropped.
#[verifier::loop_isolation(false)]
pub fn dedup_entries(entries: Vec<ArchiveEntry>) -> (r: Vec<ArchiveEntry>)
    ensures
        entries_model(r@) == dedup_spec(entries_model(entries@)),
{
    let ghost all = entries@;
    let mut entries = entries;
    let mut r: Vec<ArchiveEntry> = Vec::new();
    let total: usize = entries.len();
    let mut i: usize = 0;
    while i < total
        invariant
            entries@ == all.skip(i as int),
            0 <= i <= total,
            entries_model(r@) == dedup_spec(entries_model(all.take(i as int))),
        decreases total - i,
    {
        let e = entries.remove(0);
        assert(e == all[i as int]);
        assert(entries@ =~= all.skip(i + 1));
        proof {
            assert(entries_model(all.take(i + 1)).drop_last() =~= entries_model(
                all.take(i as int),
            ));
            assert(entries_model(all.take(i + 1)).last() == entry_model(all[i as int]));
        }
        r = remove_named(r, &e.name);
        proof {
            lemma_entries_model_push(r@, e);
        }
        r.push(e);
        i = i + 1;
    }
    proof {
        assert(all.take(total as int) =~= all);
        assert(entries_model(all.take(total as int)) =~= entries_model(all));
    }
    r
}

/// Some entry already carries this name.
pub open spec fn has_entry_named(es: Seq<(Seq<char>, Seq<u8>, bool)>, name: Seq<char>) -> bool {
    exists|i: int| 0 <= i < es.len() && (#[trigger] es[i]).0 == name
}

/// No two entries share a name.
pub open spec fn distinct_names(es: Seq<(Seq<char>, Seq<u8>, bool)>) -> bool {
    forall|i: int, j: int|
        0 <= i < j < es.len() ==> (#[trigger] es[i]).0 != (#[trigger] es[j]).0
}

/// The container format's limits on one entry, stated conservatively: a name
/// of at most 16383 characters (a character encodes to at most four bytes,
/// and the format caps a name at 65535 bytes) and data at most the format's
/// four-gigabyte threshold.
pub open spec fn entry_within_limits(e: (Seq<char>, Seq<u8>, bool)) -> bool {
    e.0.len() <= 16383 && e.1.len() <= 0xFFFF_FFFF
}

pub open spec fn entries_within_limits(es: Seq<(Seq<char>, Seq<u8>, bool)>) -> bool {
    forall|i: int| 0 <= i < es.len() ==> entry_within_limits(#[trigger] es[i])
}

proof fn lemma_drop_name_removes(s: Seq<(Seq<char>, Seq<u8>, bool)>, name: Seq<char>)
    ensures
        !has_entry_named(drop_name(s, name), name),
    decreases s.len(),
{
    if s.len() > 0 {
        let dd = s.drop_last();
        lemma_drop_name_removes(dd, name);
        let r = drop_name(s, name);
        let rd = drop_name(dd, name);
        if has_entry_named(r, name) {
            let j = choose|j: int| 0 <= j < r.len() && (#[trigger] r[j]).0 == name;
            if j < rd.len() {
                assert(r[j] == rd[j]);
                assert(has_entry_named(rd, name));
            } else {
                assert(r[j] == s.last());
            }
        }
    }
}

proof fn lemma_drop_name_distinct(s: Seq<(Seq<char>, Seq<u8>, bool)>, name: Seq<char>)
    requires
        distinct_names(s),
    ensures
        distinct_names(drop_name(s, name)),
    decreases s.len(),
{
    if s.len() > 0 {
        let dd = s.drop_last();
        assert(forall|i: int| 0 <= i < dd.len() ==> dd[i] == s[i]);
        lemma_drop_name_distinct(dd, name);
        lemma_drop_name_members(dd, name);
        let r = drop_name(s, name);
        let rd = drop_name(dd, name);
        assert forall|i: int, j: int| 0 <= i < j < r.len() implies (#[trigger] r[i]).0 != (
        #[trigger] r[j]).0 by {
            if j < rd.len() {
                assert(r[i] == rd[i]);
                assert(r[j] == rd[j]);
            } else {
                assert(r[j] == s.last());
                assert(r[i] == rd[i]);
                assert(dd.contains(rd[i]));
                let w = choose|w: int| 0 <= w < dd.len() && dd[w] == rd[i];
                assert(s[w] == dd[w]);
                assert(s[s.len() - 1] == s.last());
            }
        }
    }
}

proof fn lemma_dedup_distinct(s: Seq<(Seq<char>, Seq<u8>, bool)>)
    ensures
        distinct_names(dedup_spec(s)),
    decreases s.len(),
{
    if s.len() > 0 {
        let dd = s.drop_last();
        lemma_dedup_distinct(dd);
        lemma_drop_name_distinct(dedup_spec(dd), s.last().0);
        lemma_drop_name_removes(dedup_spec(dd), s.last().0);
        let dn = drop_name(dedup_spec(dd), s.last().0);
        let r = dedup_spec(s);
        assert forall|i: int, j: int| 0 <= i < j < r.len() implies (#[trigger] r[i]).0 != (
        #[trigger] r[j]).0 by {
            if j < dn.len() {
                assert(r[i] == dn[i]);
                assert(r[j] == dn[j]);
            } else {
                assert(r[j] == s.last());
                assert(r[i] == dn[i]);
                if r[i].0 == s.last().0 {
                    assert(has_entry_named(dn, s.last().0));
                }
            }
        }
    }
}

/// Every explicit directory entry's name ends in a forward slash and its
/// data is empty.
pub open spec fn wf_dir_entries(es: Seq<(Seq<char>, Seq<u8>, bool)>) -> bool {
    forall|j: int|
        0 <= j < es.len() && (#[trigger] es[j]).2 ==> es[j].0.len() > 0 && es[j].0.last() == '/'
            && es[j].1 == Seq::<u8>::empty()
}

/// Write the planned entries into the archive writer, in order. On success
/// the writer holds exactly the given entries after what it already held;
/// and into a fresh writer, entries with pairwise distinct names within the
/// container's limits are always written successfully.
#[verifier::loop_isolation(false)]
fn write_entries(w: &mut ArchiveWriter, entries: &Vec<ArchiveEntry>) -> (r: Result<(), zip::result::ZipError>)
    requires
        wf_dir_entries(entries_model(entries@)),
    ensures
        r is Ok ==> written_entries(*final(w)) == written_entries(*old(w)) + entries_model(
            entries@,
        ),
        distinct_names(entries_model(entries@)) && entries_within_limits(entries_model(entries@))
            && written_entries(*old(w)) == Seq::<(Seq<char>, Seq<u8>, bool)>::empty() ==> r is Ok,
{
    let ghost m = entries_model(entries@);
    let total: usize = entries.len();
    let mut i: usize = 0;
    while i < total
        invariant
            0 <= i <= total,
            written_entries(*w) == written_entries(*old(w)) + entries_model(entries@).take(
                i as int,
            ),
        decreases total - i,
    {
        let e = &entries[i];
        proof {
            assert(m[i as int] == entry_model(entries@[i as int]));
            if distinct_names(m) && entries_within_limits(m) && written_entries(*old(w)) == Seq::<
                (Seq<char>, Seq<u8>, bool),
            >::empty() {
                assert(entry_within_limits(m[i as int]));
                assert(!has_entry_named(
                    written_entries(*old(w)) + m.take(i as int),
                    m[i as int].0,
                )) by {
                    let pre = written_entries(*old(w)) + m.take(i as int);
                    if has_entry_named(pre, m[i as int].0) {
                        let j = choose|j: int| 0 <= j < pre.len() && (#[trigger] pre[j]).0
                            == m[i as int].0;
                        assert(pre[j] == m.take(i as int)[j]);
                        assert(m.take(i as int)[j] == m[j]);
                        assert(m[j].0 != m[i as int].0);
                    }
                }
            }
        }
        if e.is_dir {
            proof {
                assert((m[i as int]).2);
            }
            let res = add_dir_entry(w, e.name.as_str());
            if res.is_err() {
                proof {
                    if distinct_names(m) && entries_within_limits(m) && written_entries(*old(w))
                        == Seq::<(Seq<char>, Seq<u8>, bool)>::empty() {
                        assert(res is Ok);
                    }
                }
                return res;
            }
        } else {
            let res = add_file_entry(w, e.name.as_str(), &e.data);
            if res.is_err() {
                proof {
                    if distinct_names(m) && entries_within_limits(m) && written_entries(*old(w))
                        == Seq::<(Seq<char>, Seq<u8>, bool)>::empty() {
                        assert(res is Ok);
                    }
                }
                return res;
            }
        }
        proof {
            assert(m.take(i + 1) =~= m.take(i as int).push(entry_model(entries@[i as int])));
            assert(written_entries(*w) =~= written_entries(*old(w)) + m.take(i + 1));
        }
        i = i + 1;
    }
    proof {
        assert(m.take(total as int) =~= m);
    }
    Ok(())
}

proof fn lemma_files_entries_wf(prefix: Seq<char>, files: Seq<FileNode>)
    ensures
        wf_dir_entries(files_entries(prefix, files)),
    decreases files.len(),
{
    if files.len() > 0 {
        lemma_files_entries_wf(prefix, files.drop_last());
    }
}

proof fn lemma_tree_entries_wf(prefix: Seq<char>, t: DirTree)
    ensures
        wf_dir_entries(tree_entries(prefix, t)),
    decreases t,
{
    lemma_files_entries_wf(prefix, t.files@);
    lemma_dirs_entries_wf(prefix, t.dirs@);
}

proof fn lemma_dirs_entries_wf(prefix: Seq<char>, dirs: Seq<DirNode>)
    ensures
        wf_dir_entries(dirs_entries(prefix, dirs)),
    decreases dirs,
{
    reveal_strlit("/");
    if dirs.len() > 0 {
        let d = dirs.last();
        let cp = child_prefix(prefix, d.name@);
        lemma_dirs_entries_wf(prefix, dirs.drop_last());
        lemma_tree_entries_wf(cp, d.tree);
        assert(cp.last() == '/');
        let es = dirs_entries(prefix, dirs);
        let a = dirs_entries(prefix, dirs.drop_last());
        let b = seq![(cp, Seq::<u8>::empty(), true)];
        let c = tree_entries(cp, d.tree);
        assert forall|j: int| 0 <= j < es.len() && (#[trigger] es[j]).2 implies es[j].0.len() > 0
            && es[j].0.last() == '/' && es[j].1 == Seq::<u8>::empty() by {
            if j < a.len() {
                assert(es[j] == a[j]);
            } else if j < a.len() + 1 {
                assert(es[j] == b[0]);
            } else {
                assert(es[j] == c[j - a.len() - 1]);
            }
        }
    }
}

proof fn lemma_plan_wf(metadata: Seq<u8>, extras: Option<DirTree>, overrides: Option<DirTree>)
    ensures
        wf_dir_entries(plan_spec(metadata, extras, overrides)),
{
    let a = seq![metadata_entry(metadata)];
    let b = match extras {
        Option::Some(t) => files_entries("overrides/"@, t.files@),
        Option::None => Seq::empty(),
    };
    let c = match overrides {
        Option::Some(t) => tree_entries("overrides/"@, t),
        Option::None => Seq::empty(),
    };
    match extras {
        Option::Some(t) => lemma_files_entries_wf("overrides/"@, t.files@),
        Option::None => {},
    }
    match overrides {
        Option::Some(t) => lemma_tree_entries_wf("overrides/"@, t),
        Option::None => {},
    }
    let es = plan_spec(metadata, extras, overrides);
    assert forall|j: int| 0 <= j < es.len() && (#[trigger] es[j]).2 implies es[j].0.len() > 0
        && es[j].0.last() == '/' && es[j].1 == Seq::<u8>::empty() by {
        if j < 1 {
            assert(es[j] == a[0]);
        } else if j < 1 + b.len() {
            assert(es[j] == b[j - 1]);
        } else {
            assert(es[j] == c[j - 1 - b.len()]);
        }
    }
}

proof fn lemma_drop_name_members(s: Seq<(Seq<char>, Seq<u8>, bool)>, name: Seq<char>)
    ensures
        forall|j: int|
            0 <= j < drop_name(s, name).len() ==> s.contains(#[trigger] drop_name(s, name)[j]),
    decreases s.len(),
{
    if s.len() > 0 {
        let dd = s.drop_last();
        lemma_drop_name_members(dd, name);
        let r = drop_name(s, name);
        let rd = drop_name(dd, name);
        assert forall|j: int| 0 <= j < r.len() implies s.contains(#[trigger] r[j]) by {
            if j < rd.len() {
                assert(r[j] == rd[j]);
                assert(dd.contains(rd[j]));
                let w = choose|w: int| 0 <= w < dd.len() && dd[w] == rd[j];
                assert(s[w] == dd[w]);
            } else {
                assert(r[j] == s.last());
                assert(s[s.len() - 1] == s.last());
            }
        }
    }
}

proof fn lemma_dedup_members(s: Seq<(Seq<char>, Seq<u8>, bool)>)
    ensures
        forall|j: int| 0 <= j < dedup_spec(s).len() ==> s.contains(#[trigger] dedup_spec(s)[j]),
    decreases s.len(),
{
    if s.len() > 0 {
        let dd = s.drop_last();
        lemma_dedup_members(dd);
        lemma_drop_name_members(dedup_spec(dd), s.last().0);
        let r = dedup_spec(s);
        let dn = drop_name(dedup_spec(dd), s.last().0);
        assert forall|j: int| 0 <= j < r.len() implies s.contains(#[trigger] r[j]) by {
            if j < dn.len() {
                assert(r[j] == dn[j]);
                assert(dedup_spec(dd).contains(dn[j]));
                let w = choose|w: int| 0 <= w < dedup_spec(dd).len() && dedup_spec(dd)[w] == dn[j];
                assert(dd.contains(dedup_spec(dd)[w]));
                let v = choose|v: int| 0 <= v < dd.len() && dd[v] == dn[j];
                assert(s[v] == dd[v]);
            } else {
                assert(r[j] == s.last());
                assert(s[s.len() - 1] == s.last());
            }
        }
    }
}

/// No character of the sequence is a backslash.
pub open spec fn no_backslash(s: Seq<char>) -> bool {
    forall|i: int| 0 <= i < s.len() ==> s[i] != '\\'
}

/// A well-formed node name: nonempty and free of either path separator.
pub open spec fn wf_name(s: Seq<char>) -> bool {
    &&& s.len() > 0
    &&& forall|i: int| 0 <= i < s.len() ==> s[i] != '/' && s[i] != '\\'
}

pub open spec fn wf_files(files: Seq<FileNode>) -> bool {
    forall|i: int| 0 <= i < files.len() ==> wf_name((#[trigger] files[i]).name@)
}

/// Every name in the tree is well-formed.
pub open spec fn wf_tree(t: DirTree) -> bool
    decreases t,
{
    wf_files(t.files@) && wf_dirs(t.dirs@)
}

pub open spec fn wf_dirs(dirs: Seq<DirNode>) -> bool
    decreases dirs,
{
    if dirs.len() == 0 {
        true
    } else {
        wf_dirs(dirs.drop_last()) && wf_name(dirs.last().name@) && wf_tree(dirs.last().tree)
    }
}

proof fn lemma_files_entries_no_backslash(prefix: Seq<char>, files: Seq<FileNode>)
    requires
        wf_files(files),
        no_backslash(prefix),
    ensures
        forall|j: int|
            0 <= j < files_entries(prefix, files).len() ==> no_backslash(
                (#[trigger] files_entries(prefix, files)[j]).0,
            ),
    decreases files.len(),
{
    if files.len() > 0 {
        let dd = files.drop_last();
        assert(forall|i: int| 0 <= i < dd.len() ==> dd[i] == files[i]);
        lemma_files_entries_no_backslash(prefix, dd);
        assert(files[files.len() - 1] == files.last());
        let nm = prefix + files.last().name@;
        assert forall|i: int| 0 <= i < nm.len() implies nm[i] != '\\' by {
            if i < prefix.len() {
                assert(nm[i] == prefix[i]);
            } else {
                assert(nm[i] == files.last().name@[i - prefix.len()]);
            }
        }
        let es = files_entries(prefix, files);
        let ed = files_entries(prefix, dd);
        assert forall|j: int| 0 <= j < es.len() implies no_backslash((#[trigger] es[j]).0) by {
            if j < ed.len() {
                assert(es[j] == ed[j]);
            } else {
                assert(es[j].0 == nm);
            }
        }
    }
}

/// Every entry a tree contributes carries a forward-slash separated name:
/// given well-formed node names and a backslash-free prefix, no archive entry
/// name holds a backslash, whatever the host's own path convention was. A
/// node name holding a literal backslash — legal on unix filesystems — falls
/// outside `wf_tree` and outside this statement: the library joins components
/// with forward slashes and rewrites nothing inside a name.
pub proof fn lemma_tree_entries_forward_slash(prefix: Seq<char>, t: DirTree)
    requires
        wf_tree(t),
        no_backslash(prefix),
    ensures
        forall|j: int|
            0 <= j < tree_entries(prefix, t).len() ==> no_backslash(
                (#[trigger] tree_entries(prefix, t)[j]).0,
            ),
    decreases t,
{
    lemma_files_entries_no_backslash(prefix, t.files@);
    lemma_dirs_entries_no_backslash(prefix, t.dirs@);
    let es = tree_entries(prefix, t);
    let a = files_entries(prefix, t.files@);
    let b = dirs_entries(prefix, t.dirs@);
    assert forall|j: int| 0 <= j < es.len() implies no_backslash((#[trigger] es[j]).0) by {
        if j < a.len() {
            assert(es[j] == a[j]);
        } else {
            assert(es[j] == b[j - a.len()]);
        }
    }
}

proof fn lemma_dirs_entries_no_backslash(prefix: Seq<char>, dirs: Seq<DirNode>)
    requires
        wf_dirs(dirs),
        no_backslash(prefix),
    ensures
        forall|j: int|
            0 <= j < dirs_entries(prefix, dirs).len() ==> no_backslash(
                (#[trigger] dirs_entries(prefix, dirs)[j]).0,
            ),
    decreases dirs,
{
    reveal_strlit("/");
    if dirs.len() > 0 {
        let d = dirs.last();
        let cp = child_prefix(prefix, d.name@);
        assert forall|i: int| 0 <= i < cp.len() implies cp[i] != '\\' by {
            if i < prefix.len() {
                assert(cp[i] == prefix[i]);
            } else if i < prefix.len() + d.name@.len() {
                assert(cp[i] == d.name@[i - prefix.len()]);
            } else {
                assert(cp[i] == "/"@[i - prefix.len() - d.name@.len()]);
            }
        }
        lemma_dirs_entries_no_backslash(prefix, dirs.drop_last());
        lemma_tree_entries_forward_slash(cp, d.tree);
        let es = dirs_entries(prefix, dirs);
        let a = dirs_entries(prefix, dirs.drop_last());
        let b = seq![(cp, Seq::<u8>::empty(), true)];
        let c = tree_entries(cp, d.tree);
        assert forall|j: int| 0 <= j < es.len() implies no_backslash((#[trigger] es[j]).0) by {
            if j < a.len() {
                assert(es[j] == a[j]);
            } else if j < a.len() + 1 {
                assert(es[j] == b[0]);
            } else {
                assert(es[j] == c[j - a.len() - 1]);
            }
        }
    }
}

proof fn lemma_files_entries_contains(prefix: Seq<char>, files: Seq<FileNode>, j: int)
    requires
        0 <= j < files.len(),
    ensures
        files_entries(prefix, files).contains(file_entry(prefix, files[j])),
    decreases files.len(),
{
    let es = files_entries(prefix, files);
    if j == files.len() - 1 {
        assert(es[es.len() - 1] == file_entry(prefix, files[j]));
    } else {
        let dd = files.drop_last();
        assert(dd[j] == files[j]);
        lemma_files_entries_contains(prefix, dd, j);
        let ed = files_entries(prefix, dd);
        let w = choose|w: int| 0 <= w < ed.len() && ed[w] == file_entry(prefix, dd[j]);
        assert(es[w] == ed[w]);
    }
}

/// A direct file child of the tree appears in the archive under the prefix
/// followed by its own name.
pub proof fn lemma_tree_contains_file(prefix: Seq<char>, t: DirTree, j: int)
    requires
        0 <= j < t.files@.len(),
    ensures
        tree_entries(prefix, t).contains(
            (prefix + t.files@[j].name@, t.files@[j].data@, false),
        ),
{
    lemma_files_entries_contains(prefix, t.files@, j);
    let a = files_entries(prefix, t.files@);
    let es = tree_entries(prefix, t);
    let w = choose|w: int| 0 <= w < a.len() && a[w] == file_entry(prefix, t.files@[j]);
    assert(es[w] == a[w]);
}

proof fn lemma_dirs_entries_contains(
    prefix: Seq<char>,
    dirs: Seq<DirNode>,
    i: int,
    e: (Seq<char>, Seq<u8>, bool),
)
    requires
        0 <= i < dirs.len(),
        tree_entries(child_prefix(prefix, dirs[i].name@), dirs[i].tree).contains(e),
    ensures
        dirs_entries(prefix, dirs).contains(e),
    decreases dirs,
{
    let es = dirs_entries(prefix, dirs);
    let a = dirs_entries(prefix, dirs.drop_last());
    if i == dirs.len() - 1 {
        let d = dirs.last();
        let cp = child_prefix(prefix, d.name@);
        let c = tree_entries(cp, d.tree);
        let w = choose|w: int| 0 <= w < c.len() && c[w] == e;
        assert(es[a.len() + 1 + w] == c[w]);
    } else {
        let dd = dirs.drop_last();
        assert(dd[i] == dirs[i]);
        lemma_dirs_entries_contains(prefix, dd, i, e);
        let w = choose|w: int| 0 <= w < a.len() && a[w] == e;
        assert(es[w] == a[w]);
    }
}

/// Mirroring preserves relative structure: whatever entry a subdirectory's
/// tree contributes under its own prefix — the parent prefix, the
/// subdirectory's name and a slash — is an entry of the parent tree. Applied
/// repeatedly, a file nested anywhere appears under the prefix followed by
/// its slash-joined relative path.
pub proof fn lemma_tree_contains_subdir_entry(
    prefix: Seq<char>,
    t: DirTree,
    i: int,
    e: (Seq<char>, Seq<u8>, bool),
)
    requires
        0 <= i < t.dirs@.len(),
        tree_entries(child_prefix(prefix, t.dirs@[i].name@), t.dirs@[i].tree).contains(e),
    ensures
        tree_entries(prefix, t).contains(e),
{
    lemma_dirs_entries_contains(prefix, t.dirs@, i, e);
    let a = files_entries(prefix, t.files@);
    let b = dirs_entries(prefix, t.dirs@);
    let es = tree_entries(prefix, t);
    let w = choose|w: int| 0 <= w < b.len() && b[w] == e;
    assert(es[a.len() + w] == b[w]);
}

/// A file one level down — at `<dir>/<file>` relative to the mirrored root —
/// appears in the archive under the prefix followed by its slash-joined
/// relative path, with its own bytes.
pub proof fn lemma_nested_file_mirrored(prefix: Seq<char>, t: DirTree, i: int, j: int)
    requires
        0 <= i < t.dirs@.len(),
        0 <= j < t.dirs@[i].tree.files@.len(),
    ensures
        tree_entries(prefix, t).contains(
            (
                child_prefix(prefix, t.dirs@[i].name@) + t.dirs@[i].tree.files@[j].name@,
                t.dirs@[i].tree.files@[j].data@,
                false,
            ),
        ),
{
    let cp = child_prefix(prefix, t.dirs@[i].name@);
    let sub = t.dirs@[i].tree;
    lemma_tree_contains_file(cp, sub, j);
    lemma_tree_contains_subdir_entry(
        prefix,
        t,
        i,
        (cp + sub.files@[j].name@, sub.files@[j].data@, false),
    );
}

/// Create the modpack archive: plan the entries, resolve name collisions
/// last-write-wins, and write them through an in-memory zip container. On
/// success the returned bytes are the container's encoding of exactly those
/// entries; and whenever every planned entry is within the container's
/// limits — its name at most 16383 characters, its data at most the
/// four-gigabyte threshold — the call succeeds. On failure the first refused
/// operation's error is returned.
pub fn create(metadata: Vec<u8>, extras: Option<DirTree>, overrides: Option<DirTree>) -> (r: Result<
    Vec<u8>,
    zip::result::ZipError,
>)
    ensures
        r matches Ok(bytes) ==> bytes@ == encoded_archive(
            dedup_spec(plan_spec(metadata@, extras, overrides)),
        ),
        entries_within_limits(plan_spec(metadata@, extras, overrides)) ==> r is Ok,
{
    let ghost gplan = plan_spec(metadata@, extras, overrides);
    proof {
        lemma_plan_wf(metadata@, extras, overrides);
        lemma_dedup_members(gplan);
        lemma_dedup_distinct(gplan);
    }
    let plan = plan_modpack_entries(metadata, extras, overrides);
    let deduped = dedup_entries(plan);
    proof {
        let es = entries_model(deduped@);
        assert forall|j: int| 0 <= j < es.len() && (#[trigger] es[j]).2 implies es[j].0.len() > 0
            && es[j].0.last() == '/' && es[j].1 == Seq::<u8>::empty() by {
            assert(gplan.contains(es[j]));
            let w = choose|w: int| 0 <= w < gplan.len() && gplan[w] == es[j];
            assert(wf_dir_entries(gplan));
        }
        if entries_within_limits(gplan) {
            assert forall|j: int| 0 <= j < es.len() implies entry_within_limits(
                #[trigger] es[j],
            ) by {
                assert(gplan.contains(es[j]));
                let w = choose|w: int| 0 <= w < gplan.len() && gplan[w] == es[j];
                assert(entry_within_limits(gplan[w]));
            }
            assert(entries_within_limits(es));
        }
    }
    let mut w = new_writer();
    let res = write_entries(&mut w, &deduped);
    match res {
        Ok(()) => {
            proof {
                assert(written_entries(w) =~= dedup_spec(gplan));
            }
            finish_writer(w)
        },
        Err(e) => {
            proof {
                if entries_within_limits(gplan) {
                    assert(res is Ok);
                }
            }
            Err(e)
        },
    }
}

} // verus!
