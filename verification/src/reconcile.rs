//! Reconciliation of the resolved download set against the installation
//! directory: which on-disk files are kept, which are stale and removed,
//! which records still need downloading, and where each record is written.

use vstd::prelude::*;
use vstd::string::StrSliceExecFns;
use vstd::string::StringExecFns;
use crate::pipeline::DownloadRecord;

verus! {

/// The mod-loading runtime, a compatibility dimension of the profile.
#[derive(Clone, Copy, PartialEq, Eq, Structural)]
pub enum ModLoader {
    Fabric,
    Forge,
    NeoForge,
    Quilt,
}

/// A direct child of the manual-install subfolder, as the scan saw it.
pub struct UserEntry {
    pub name: String,
    pub is_file: bool,
}

/// Manual installs are supported by every loader but Quilt.
pub open spec fn spec_supports_manual(loader: ModLoader) -> bool {
    loader != ModLoader::Quilt
}

pub fn supports_manual_installs(loader: ModLoader) -> (r: bool)
    ensures
        r == spec_supports_manual(loader),
{
    loader != ModLoader::Quilt
}

/// The name has a `jar` extension, compared case-insensitively: at least one
/// character of stem, then a dot, then the three letters in either case.
pub open spec fn spec_is_jar_name(s: Seq<char>) -> bool {
    &&& s.len() >= 5
    &&& s[s.len() - 4] == '.'
    &&& (s[s.len() - 3] == 'j' || s[s.len() - 3] == 'J')
    &&& (s[s.len() - 2] == 'a' || s[s.len() - 2] == 'A')
    &&& (s[s.len() - 1] == 'r' || s[s.len() - 1] == 'R')
}

pub fn is_jar_name(name: &str) -> (r: bool)
    ensures
        r == spec_is_jar_name(name@),
{
    let n = name.unicode_len();
    if n < 5 {
        false
    } else {
        let dot = name.get_char(n - 4);
        let j = name.get_char(n - 3);
        let a = name.get_char(n - 2);
        let rr = name.get_char(n - 1);
        dot == '.' && (j == 'j' || j == 'J') && (a == 'a' || a == 'A') && (rr == 'r' || rr
            == 'R')
    }
}

/// Which user entries count as manually installed files: direct file children
/// with a `jar` extension, and none at all when the loader has no manual
/// install support.
pub open spec fn manual_installs_spec(loader: ModLoader, entries: Seq<UserEntry>) -> Seq<String>
    decreases entries.len(),
{
    if !spec_supports_manual(loader) || entries.len() == 0 {
        Seq::empty()
    } else {
        let rest = manual_installs_spec(loader, entries.drop_last());
        let e = entries.last();
        if e.is_file && spec_is_jar_name(e.name@) {
            rest.push(e.name)
        } else {
            rest
        }
    }
}

#[verifier::loop_isolation(false)]
pub fn manual_installs(loader: ModLoader, entries: Vec<UserEntry>) -> (r: Vec<String>)
    ensures
        r@ == manual_installs_spec(loader, entries@),
{
    let ghost all = entries@;
    let mut entries = entries;
    let mut r: Vec<String> = Vec::new();
    if !supports_manual_installs(loader) {
        assert(r@ =~= manual_installs_spec(loader, all));
        return r;
    }
    let total: usize = entries.len();
    let mut i: usize = 0;
    while i < total
        invariant
            entries@ == all.skip(i as int),
            0 <= i <= total,
            r@ == manual_installs_spec(loader, all.take(i as int)),
        decreases total - i,
    {
        let e = entries.remove(0);
        assert(e == all[i as int]);
        assert(entries@ =~= all.skip(i + 1));
        proof {
            assert(all.take(i + 1).drop_last() =~= all.take(i as int));
            assert(all.take(i + 1).last() == all[i as int]);
        }
        if e.is_file && is_jar_name(e.name.as_str()) {
            r.push(e.name);
        }
        i = i + 1;
    }
    proof {
        assert(all.take(total as int) =~= all);
    }
    r
}

/// Some resolved record's filename reads `name`.
pub open spec fn has_filename(ds: Seq<DownloadRecord>, name: Seq<char>) -> bool {
    exists|i: int| 0 <= i < ds.len() && (#[trigger] ds[i]).filename@ == name
}

/// Some string in the list reads `name`.
pub open spec fn has_name(names: Seq<String>, name: Seq<char>) -> bool {
    exists|i: int| 0 <= i < names.len() && (#[trigger] names[i])@ == name
}

/// An on-disk file is desired when a resolved download or a manual install
/// carries its name; everything else is stale.
pub open spec fn is_desired(f: String, dl: Seq<DownloadRecord>, inst: Seq<String>) -> bool {
    has_filename(dl, f@) || has_name(inst, f@)
}

/// The on-disk files that stay: those a resolved download or manual install
/// accounts for, in listing order.
pub open spec fn keep_spec(disk: Seq<String>, dl: Seq<DownloadRecord>, inst: Seq<String>) -> Seq<
    String,
>
    decreases disk.len(),
{
    if disk.len() == 0 {
        Seq::empty()
    } else {
        let rest = keep_spec(disk.drop_last(), dl, inst);
        if is_desired(disk.last(), dl, inst) {
            rest.push(disk.last())
        } else {
            rest
        }
    }
}

/// The stale on-disk files: those nothing accounts for, in listing order.
pub open spec fn remove_spec(disk: Seq<String>, dl: Seq<DownloadRecord>, inst: Seq<String>) -> Seq<
    String,
>
    decreases disk.len(),
{
    if disk.len() == 0 {
        Seq::empty()
    } else {
        let rest = remove_spec(disk.drop_last(), dl, inst);
        if is_desired(disk.last(), dl, inst) {
            rest
        } else {
            rest.push(disk.last())
        }
    }
}

/// The records whose artifact is not on disk yet, in resolution order.
pub open spec fn pending_spec(dl: Seq<DownloadRecord>, disk: Seq<String>) -> Seq<DownloadRecord>
    decreases dl.len(),
{
    if dl.len() == 0 {
        Seq::empty()
    } else {
        let rest = pending_spec(dl.drop_last(), disk);
        if has_name(disk, dl.last().filename@) {
            rest
        } else {
            rest.push(dl.last())
        }
    }
}

/// The outcome of reconciliation: what to download, what to keep, what to
/// remove.
pub struct ReconcilePlan {
    pub pending: Vec<DownloadRecord>,
    pub keep: Vec<String>,
    pub remove: Vec<String>,
}

fn names_contain(names: &Vec<String>, x: &String) -> (r: bool)
    ensures
        r == has_name(names@, x@),
{
    let mut r = false;
    let mut i: usize = 0;
    while i < names.len()
        invariant
            0 <= i <= names@.len(),
            r ==> has_name(names@, x@),
            !r ==> forall|j: int| 0 <= j < i ==> (#[trigger] names@[j])@ != x@,
        decreases names@.len() - i,
    {
        if names[i] == *x {
            proof {
                assert((names@[i as int])@ == x@);
            }
            r = true;
        }
        i = i + 1;
    }
    r
}

fn downloads_contain(ds: &Vec<DownloadRecord>, x: &String) -> (r: bool)
    ensures
        r == has_filename(ds@, x@),
{
    let mut r = false;
    let mut i: usize = 0;
    while i < ds.len()
        invariant
            0 <= i <= ds@.len(),
            r ==> has_filename(ds@, x@),
            !r ==> forall|j: int| 0 <= j < i ==> (#[trigger] ds@[j]).filename@ != x@,
        decreases ds@.len() - i,
    {
        if ds[i].filename == *x {
            proof {
                assert((ds@[i as int]).filename@ == x@);
            }
            r = true;
        }
        i = i + 1;
    }
    r
}

/// Diff the resolved download set against the installation directory's
/// top-level listing and the manual installs: artifacts already on disk are
/// not downloaded again, desired files stay, stale files are removed.
#[verifier::loop_isolation(false)]
pub fn reconcile(
    downloads: Vec<DownloadRecord>,
    disk: Vec<String>,
    installs: &Vec<String>,
) -> (plan: ReconcilePlan)
    ensures
        plan.pending@ == pending_spec(downloads@, disk@),
        plan.keep@ == keep_spec(disk@, downloads@, installs@),
        plan.remove@ == remove_spec(disk@, downloads@, installs@),
{
    let ghost dl = downloads@;
    let ghost dk = disk@;
    let mut pending: Vec<DownloadRecord> = Vec::new();
    let mut keep: Vec<String> = Vec::new();
    let mut remove: Vec<String> = Vec::new();

    let dtotal: usize = disk.len();
    let mut j: usize = 0;
    while j < dtotal
        invariant
            0 <= j <= dtotal,
            keep@ == keep_spec(dk.take(j as int), dl, installs@),
            remove@ == remove_spec(dk.take(j as int), dl, installs@),
        decreases dtotal - j,
    {
        let f = disk[j].clone();
        assert(f == dk[j as int]);
        proof {
            assert(dk.take(j + 1).drop_last() =~= dk.take(j as int));
            assert(dk.take(j + 1).last() == dk[j as int]);
        }
        let wanted = downloads_contain(&downloads, &f) || names_contain(installs, &f);
        if wanted {
            keep.push(f);
        } else {
            remove.push(f);
        }
        j = j + 1;
    }
    proof {
        assert(dk.take(dtotal as int) =~= dk);
    }

    let mut rest = downloads;
    let total: usize = rest.len();
    let mut i: usize = 0;
    while i < total
        invariant
            rest@ == dl.skip(i as int),
            0 <= i <= total,
            pending@ == pending_spec(dl.take(i as int), dk),
        decreases total - i,
    {
        let d = rest.remove(0);
        assert(d == dl[i as int]);
        assert(rest@ =~= dl.skip(i + 1));
        proof {
            assert(dl.take(i + 1).drop_last() =~= dl.take(i as int));
            assert(dl.take(i + 1).last() == dl[i as int]);
        }
        let present = names_contain(&disk, &d.filename);
        if !present {
            pending.push(d);
        }
        i = i + 1;
    }
    proof {
        assert(dl.take(total as int) =~= dl);
    }

    ReconcilePlan { pending, keep, remove }
}

/// Assign each record's output path to `<dir>/<resolved filename>`, leaving
/// every other field as it was.
#[verifier::loop_isolation(false)]
pub fn assign_output_paths(records: Vec<DownloadRecord>, dir: &str) -> (r: Vec<DownloadRecord>)
    ensures
        r@.len() == records@.len(),
        forall|i: int| 0 <= i < records@.len() ==> {
            &&& (#[trigger] r@[i]).name == records@[i].name
            &&& r@[i].filename == records@[i].filename
            &&& r@[i].url == records@[i].url
            &&& r@[i].output@ == dir@ + "/"@ + records@[i].filename@
        },
{
    let ghost all = records@;
    let mut rest = records;
    let mut r: Vec<DownloadRecord> = Vec::new();
    let total: usize = rest.len();
    let mut i: usize = 0;
    while i < total
        invariant
            rest@ == all.skip(i as int),
            0 <= i <= total,
            r@.len() == i,
            forall|k: int| 0 <= k < i ==> {
                &&& (#[trigger] r@[k]).name == all[k].name
                &&& r@[k].filename == all[k].filename
                &&& r@[k].url == all[k].url
                &&& r@[k].output@ == dir@ + "/"@ + all[k].filename@
            },
        decreases total - i,
    {
        let d = rest.remove(0);
        assert(d == all[i as int]);
        assert(rest@ =~= all.skip(i + 1));
        let mut path = dir.to_owned();
        path.append("/");
        path.append(d.filename.as_str());
        r.push(DownloadRecord { name: d.name, filename: d.filename, url: d.url, output: path });
        i = i + 1;
    }
    r
}

/// The filenames the pending records will put on disk.
pub open spec fn record_filenames(ds: Seq<DownloadRecord>) -> Seq<String> {
    ds.map_values(|d: DownloadRecord| d.filename)
}

/// The top-level directory listing after the plan runs: kept files plus the
/// freshly downloaded artifacts.
pub open spec fn post_disk(dl: Seq<DownloadRecord>, disk: Seq<String>, inst: Seq<String>) -> Seq<
    String,
> {
    keep_spec(disk, dl, inst) + record_filenames(pending_spec(dl, disk))
}

proof fn lemma_keep_contents(disk: Seq<String>, dl: Seq<DownloadRecord>, inst: Seq<String>)
    ensures
        forall|j: int|
            0 <= j < keep_spec(disk, dl, inst).len() ==> is_desired(
                #[trigger] keep_spec(disk, dl, inst)[j],
                dl,
                inst,
            ),
        forall|i: int|
            0 <= i < disk.len() && is_desired(#[trigger] disk[i], dl, inst) ==> has_name(
                keep_spec(disk, dl, inst),
                disk[i]@,
            ),
    decreases disk.len(),
{
    if disk.len() > 0 {
        let dd = disk.drop_last();
        lemma_keep_contents(dd, dl, inst);
        let kd = keep_spec(dd, dl, inst);
        let k = keep_spec(disk, dl, inst);
        assert forall|i: int|
            0 <= i < disk.len() && is_desired(#[trigger] disk[i], dl, inst) implies has_name(
            k,
            disk[i]@,
        ) by {
            if i < disk.len() - 1 {
                assert(dd[i] == disk[i]);
                assert(has_name(kd, disk[i]@));
                let w = choose|w: int| 0 <= w < kd.len() && (#[trigger] kd[w])@ == disk[i]@;
                assert(k[w] == kd[w]);
                assert(has_name(k, disk[i]@));
            } else {
                assert(k[k.len() - 1] == disk.last());
                assert(has_name(k, disk[i]@));
            }
        }
    }
}

proof fn lemma_remove_contents(disk: Seq<String>, dl: Seq<DownloadRecord>, inst: Seq<String>)
    ensures
        forall|j: int|
            0 <= j < remove_spec(disk, dl, inst).len() ==> !is_desired(
                #[trigger] remove_spec(disk, dl, inst)[j],
                dl,
                inst,
            ),
        forall|j: int|
            0 <= j < remove_spec(disk, dl, inst).len() ==> has_name(
                disk,
                (#[trigger] remove_spec(disk, dl, inst)[j])@,
            ),
    decreases disk.len(),
{
    if disk.len() > 0 {
        let dd = disk.drop_last();
        lemma_remove_contents(dd, dl, inst);
        let rd = remove_spec(dd, dl, inst);
        let r = remove_spec(disk, dl, inst);
        assert forall|j: int| 0 <= j < r.len() implies has_name(disk, (#[trigger] r[j])@) by {
            if j < rd.len() {
                assert(r[j] == rd[j]);
                assert(has_name(dd, rd[j]@));
                let w = choose|w: int| 0 <= w < dd.len() && (#[trigger] dd[w])@ == rd[j]@;
                assert(disk[w] == dd[w]);
                assert(has_name(disk, r[j]@));
            } else {
                assert(r[j] == disk.last());
                assert(disk[disk.len() - 1] == disk.last());
                assert(has_name(disk, r[j]@));
            }
        }
    }
}

proof fn lemma_pending_contents(dl: Seq<DownloadRecord>, disk: Seq<String>)
    ensures
        forall|k: int|
            0 <= k < pending_spec(dl, disk).len() ==> has_filename(
                dl,
                (#[trigger] pending_spec(dl, disk)[k]).filename@,
            ),
        forall|i: int|
            0 <= i < dl.len() && !has_name(disk, (#[trigger] dl[i]).filename@) ==> has_filename(
                pending_spec(dl, disk),
                dl[i].filename@,
            ),
    decreases dl.len(),
{
    if dl.len() > 0 {
        let dd = dl.drop_last();
        lemma_pending_contents(dd, disk);
        let pd = pending_spec(dd, disk);
        let p = pending_spec(dl, disk);
        assert forall|k: int| 0 <= k < p.len() implies has_filename(
            dl,
            (#[trigger] p[k]).filename@,
        ) by {
            if k < pd.len() {
                assert(p[k] == pd[k]);
                assert(has_filename(dd, pd[k].filename@));
                let w = choose|w: int| 0 <= w < dd.len() && (#[trigger] dd[w]).filename@
                    == pd[k].filename@;
                assert(dl[w] == dd[w]);
                assert(has_filename(dl, p[k].filename@));
            } else {
                assert(p[k] == dl.last());
                assert(dl[dl.len() - 1] == dl.last());
                assert(has_filename(dl, p[k].filename@));
            }
        }
        assert forall|i: int|
            0 <= i < dl.len() && !has_name(disk, (#[trigger] dl[i]).filename@) implies has_filename(
            p,
            dl[i].filename@,
        ) by {
            if i < dl.len() - 1 {
                assert(dd[i] == dl[i]);
                assert(has_filename(pd, dl[i].filename@));
                let w = choose|w: int| 0 <= w < pd.len() && (#[trigger] pd[w]).filename@
                    == dl[i].filename@;
                assert(p[w] == pd[w]);
                assert(has_filename(p, dl[i].filename@));
            } else {
                assert(p[p.len() - 1] == dl.last());
                assert(has_filename(p, dl[i].filename@));
            }
        }
    }
}

proof fn lemma_remove_empty(disk: Seq<String>, dl: Seq<DownloadRecord>, inst: Seq<String>)
    requires
        forall|i: int| 0 <= i < disk.len() ==> is_desired(#[trigger] disk[i], dl, inst),
    ensures
        remove_spec(disk, dl, inst) == Seq::<String>::empty(),
        keep_spec(disk, dl, inst) == disk,
    decreases disk.len(),
{
    if disk.len() > 0 {
        let dd = disk.drop_last();
        assert(forall|i: int| 0 <= i < dd.len() ==> dd[i] == disk[i]);
        lemma_remove_empty(dd, dl, inst);
        assert(disk[disk.len() - 1] == disk.last());
        assert(keep_spec(disk, dl, inst) =~= disk);
    } else {
        assert(keep_spec(disk, dl, inst) =~= disk);
    }
}

proof fn lemma_pending_empty(dl: Seq<DownloadRecord>, disk: Seq<String>)
    requires
        forall|i: int| 0 <= i < dl.len() ==> has_name(disk, (#[trigger] dl[i]).filename@),
    ensures
        pending_spec(dl, disk) == Seq::<DownloadRecord>::empty(),
    decreases dl.len(),
{
    if dl.len() > 0 {
        let dd = dl.drop_last();
        assert(forall|i: int| 0 <= i < dd.len() ==> dd[i] == dl[i]);
        lemma_pending_empty(dd, disk);
        assert(dl[dl.len() - 1] == dl.last());
    }
}

/// Reconciliation is idempotent: on the directory state the plan itself
/// produces, a second reconciliation removes nothing, downloads nothing, and
/// keeps every file exactly as it stands.
pub proof fn lemma_reconcile_idempotent(
    dl: Seq<DownloadRecord>,
    disk: Seq<String>,
    inst: Seq<String>,
)
    ensures
        remove_spec(post_disk(dl, disk, inst), dl, inst) == Seq::<String>::empty(),
        pending_spec(dl, post_disk(dl, disk, inst)) == Seq::<DownloadRecord>::empty(),
        keep_spec(post_disk(dl, disk, inst), dl, inst) == post_disk(dl, disk, inst),
{
    let keep = keep_spec(disk, dl, inst);
    let pend = pending_spec(dl, disk);
    let post = post_disk(dl, disk, inst);
    lemma_keep_contents(disk, dl, inst);
    lemma_pending_contents(dl, disk);
    assert forall|j: int| 0 <= j < post.len() implies is_desired(
        #[trigger] post[j],
        dl,
        inst,
    ) by {
        if j < keep.len() {
            assert(post[j] == keep[j]);
        } else {
            let k = j - keep.len();
            assert(post[j] == record_filenames(pend)[k]);
            assert(record_filenames(pend)[k] == pend[k].filename);
            assert(has_filename(dl, pend[k].filename@));
        }
    }
    lemma_remove_empty(post, dl, inst);
    assert forall|i: int| 0 <= i < dl.len() implies has_name(
        post,
        (#[trigger] dl[i]).filename@,
    ) by {
        if has_name(disk, dl[i].filename@) {
            let w = choose|w: int| 0 <= w < disk.len() && (#[trigger] disk[w])@
                == dl[i].filename@;
            assert(has_filename(dl, disk[w]@));
            assert(is_desired(disk[w], dl, inst));
            assert(has_name(keep, disk[w]@));
            let v = choose|v: int| 0 <= v < keep.len() && (#[trigger] keep[v])@ == disk[w]@;
            assert(post[v] == keep[v]);
            assert(has_name(post, dl[i].filename@));
        } else {
            assert(has_filename(pend, dl[i].filename@));
            let v = choose|v: int| 0 <= v < pend.len() && (#[trigger] pend[v]).filename@
                == dl[i].filename@;
            assert(post[keep.len() + v] == record_filenames(pend)[v]);
            assert(record_filenames(pend)[v] == pend[v].filename);
            assert(has_name(post, dl[i].filename@));
        }
    }
    lemma_pending_empty(dl, post);
}

/// Everything the upgrade run decided: the manual installs, the reconciled
/// sets, and whether anything is left to do.
pub struct UpgradePlan {
    pub installs: Vec<String>,
    pub pending: Vec<DownloadRecord>,
    pub keep: Vec<String>,
    pub remove: Vec<String>,
    pub up_to_date: bool,
}

/// The whole upgrade decision: which user files count as manual installs,
/// how the resolved set reconciles against the directory listing, each
/// pending record's output path under the installation directory, and
/// whether everything is already in place.
pub fn upgrade_plan(
    loader: ModLoader,
    user_entries: Vec<UserEntry>,
    downloads: Vec<DownloadRecord>,
    disk: Vec<String>,
    install_dir: &str,
) -> (plan: UpgradePlan)
    ensures
        plan.installs@ == manual_installs_spec(loader, user_entries@),
        plan.keep@ == keep_spec(disk@, downloads@, manual_installs_spec(loader, user_entries@)),
        plan.remove@ == remove_spec(
            disk@,
            downloads@,
            manual_installs_spec(loader, user_entries@),
        ),
        plan.pending@.len() == pending_spec(downloads@, disk@).len(),
        forall|i: int| 0 <= i < plan.pending@.len() ==> {
            &&& (#[trigger] plan.pending@[i]).name == pending_spec(downloads@, disk@)[i].name
            &&& plan.pending@[i].filename == pending_spec(downloads@, disk@)[i].filename
            &&& plan.pending@[i].url == pending_spec(downloads@, disk@)[i].url
            &&& plan.pending@[i].output@ == install_dir@ + "/"@ + pending_spec(
                downloads@,
                disk@,
            )[i].filename@
        },
        plan.up_to_date == (pending_spec(downloads@, disk@).len() == 0 && manual_installs_spec(
            loader,
            user_entries@,
        ).len() == 0),
{
    let installs = manual_installs(loader, user_entries);
    let r = reconcile(downloads, disk, &installs);
    let ReconcilePlan { pending, keep, remove } = r;
    let pending = assign_output_paths(pending, install_dir);
    let up_to_date = pending.is_empty() && installs.is_empty();
    UpgradePlan { installs, pending, keep, remove, up_to_date }
}

/// The run's final exit decision: it fails when some resolution failed or
/// some per-file download or install failed; partial failures are reported,
/// never dropped, and never abort sibling operations.
pub fn upgrade_failed(resolution_failed: bool, file_failures: usize) -> (r: bool)
    ensures
        r == (resolution_failed || file_failures > 0),
{
    resolution_failed || file_failures > 0
}

/// A file outside the installation directory's top-level listing — such as a
/// file inside the manual-install subfolder, which the listing never contains
/// — is never in the remove-set, whatever the loader.
pub proof fn lemma_remove_only_listed(
    disk: Seq<String>,
    dl: Seq<DownloadRecord>,
    inst: Seq<String>,
    f: Seq<char>,
)
    requires
        !has_name(disk, f),
    ensures
        !has_name(remove_spec(disk, dl, inst), f),
{
    lemma_remove_contents(disk, dl, inst);
    let r = remove_spec(disk, dl, inst);
    if has_name(r, f) {
        let j = choose|j: int| 0 <= j < r.len() && (#[trigger] r[j])@ == f;
        assert(has_name(disk, r[j]@));
    }
}

/// A manually installed file is never in the remove-set.
pub proof fn lemma_manual_installs_kept(
    disk: Seq<String>,
    dl: Seq<DownloadRecord>,
    inst: Seq<String>,
    f: Seq<char>,
)
    requires
        has_name(inst, f),
    ensures
        !has_name(remove_spec(disk, dl, inst), f),
{
    lemma_remove_contents(disk, dl, inst);
    let r = remove_spec(disk, dl, inst);
    if has_name(r, f) {
        let j = choose|j: int| 0 <= j < r.len() && (#[trigger] r[j])@ == f;
        assert(!is_desired(r[j], dl, inst));
    }
}

} // verus!
