//! The incremental synchronization engine.
//!
//! The host walks the library directory and hands the engine a plain
//! snapshot of what it saw: entry listings, panel sightings with their
//! current metadata, and which stored paths still exist.  The engine
//! classifies entries, diffs the snapshot against the stored records to
//! find what is stale, rebuilds the folder and panel records for the
//! subtree, and returns the records to delete and to write back.  Every
//! decision in between is verified.

use crate::database::append_records;
use crate::database::lemma_filter_all;
use crate::database::lemma_filter_empty;
use crate::database::lemma_filter_none;
use crate::database::sort_episode;
use crate::database::spec_episode_key;
use crate::database::spec_episode_keys;
use crate::database::spec_sort_by_order;
use crate::database::spec_sort_episode;
use crate::database::view_opt_str;
use crate::database::FolderMetadata;
use crate::database::SpecFolder;
use crate::database::SpecPanel;
use crate::error::ReadDirError;
use crate::order::lemma_stable_order_props;
use crate::order::spec_stable_order;
use crate::text::file_name_of;
use crate::text::parent_of;
use crate::text::spec_file_name;
use crate::text::spec_parent;
use crate::text::file_stem_of;
use crate::text::spec_file_stem;
use crate::text::spec_file_stem_of_name;
use crate::text::after_last_sep;
use crate::text::lemma_after_last_any_bounds;
use crate::text::lemma_after_last_any_none_after;
use crate::text::lemma_after_last_any_suffix;
use crate::database::User;
use crate::database::SpecUser;
use crate::database::delete_os_folders;
use crate::database::spec_cascade_folders;
use crate::database::spec_cascade_panels;
use crate::database::spec_lrmf_deleted;
use crate::database::update_os_folders;
use crate::database::update_panels;
use crate::error::MangaShelfError;
use crate::order::DeepClone;
use crate::database::lemma_filter_step;
use crate::database::FileMetadata;
use crate::database::HasPath;
use crate::database::MangaPanel;
use crate::database::OsFolder;
use crate::text::extension_of;
use crate::text::is_supported_image_ext;
use crate::text::spec_extension;
use crate::text::spec_is_supported_image_ext;
use crate::text::str_eq;
use vstd::prelude::*;

verus! {

/// One directory entry as the host read it: its path, whether it is a
/// directory, and whether that directory holds at least one entry.
#[derive(Clone, Debug)]
pub struct RawDirEntry {
    pub path: String,
    pub is_dir: bool,
    pub dir_has_entries: bool,
}

/// One panel file as currently on disk: its path and its metadata, `None`
/// when the metadata could not be read.
#[derive(Clone, Debug)]
pub struct PanelSighting {
    pub path: String,
    pub metadata: Option<FileMetadata>,
}

/// An entry that classifies as a panel: a recognized image extension.
pub open spec fn spec_is_panel_entry(e: RawDirEntry) -> bool {
    match spec_extension(e.path@) {
        Some(ext) => spec_is_supported_image_ext(ext),
        None => false,
    }
}

/// An entry that classifies as a child folder: no extension, a directory,
/// and not empty.
pub open spec fn spec_is_child_folder_entry(e: RawDirEntry) -> bool {
    spec_extension(e.path@) is None && e.is_dir && e.dir_has_entries
}

/// The paths of a string list, as sequences.
pub open spec fn spec_string_views(v: Seq<String>) -> Seq<Seq<char>> {
    v.map_values(|s: String| s@)
}

/// Splits a directory listing into child-folder paths and panel paths.
/// An entry with an unrecognized extension is ignored, and so is an empty
/// sub-directory.
pub fn read_dir_helper(entries: &Vec<RawDirEntry>) -> (r: (Vec<String>, Vec<String>))
    ensures
        spec_string_views(r.0@) == entries@.filter(|e: RawDirEntry| spec_is_child_folder_entry(e))
            .map_values(|e: RawDirEntry| e.path@),
        spec_string_views(r.1@) == entries@.filter(|e: RawDirEntry| spec_is_panel_entry(e))
            .map_values(|e: RawDirEntry| e.path@),
{
    let n = entries.len();
    let mut folders: Vec<String> = Vec::new();
    let mut panels: Vec<String> = Vec::new();
    proof {
        assert(entries@.subrange(0, 0) =~= Seq::<RawDirEntry>::empty());
        lemma_filter_empty(|e: RawDirEntry| spec_is_child_folder_entry(e));
        lemma_filter_empty(|e: RawDirEntry| spec_is_panel_entry(e));
        assert(spec_string_views(folders@) =~= Seq::<RawDirEntry>::empty().filter(
            |e: RawDirEntry| spec_is_child_folder_entry(e),
        ).map_values(|e: RawDirEntry| e.path@));
        assert(spec_string_views(panels@) =~= Seq::<RawDirEntry>::empty().filter(
            |e: RawDirEntry| spec_is_panel_entry(e),
        ).map_values(|e: RawDirEntry| e.path@));
    }
    for i in 0..n
        invariant
            n == entries@.len(),
            spec_string_views(folders@) == entries@.subrange(0, i as int).filter(
                |e: RawDirEntry| spec_is_child_folder_entry(e),
            ).map_values(|e: RawDirEntry| e.path@),
            spec_string_views(panels@) == entries@.subrange(0, i as int).filter(
                |e: RawDirEntry| spec_is_panel_entry(e),
            ).map_values(|e: RawDirEntry| e.path@),
    {
        proof {
            lemma_filter_step(entries@, i as int, |e: RawDirEntry| spec_is_child_folder_entry(e));
            lemma_filter_step(entries@, i as int, |e: RawDirEntry| spec_is_panel_entry(e));
        }
        let ghost pre_f = spec_string_views(folders@);
        let ghost pre_p = spec_string_views(panels@);
        let e = &entries[i];
        let ext = extension_of(e.path.as_str());
        match ext {
            Some(x) => {
                if is_supported_image_ext(x.as_str()) {
                    panels.push(e.path.clone());
                    proof {
                        assert(spec_string_views(panels@) =~= pre_p.push(
                            entries@[i as int].path@,
                        ));
                    }
                }
            },
            None => {
                if e.is_dir && e.dir_has_entries {
                    folders.push(e.path.clone());
                    proof {
                        assert(spec_string_views(folders@) =~= pre_f.push(
                            entries@[i as int].path@,
                        ));
                    }
                }
            },
        }
        proof {
            let fsel = entries@.subrange(0, i + 1).filter(
                |e: RawDirEntry| spec_is_child_folder_entry(e),
            ).map_values(|e: RawDirEntry| e.path@);
            let psel = entries@.subrange(0, i + 1).filter(
                |e: RawDirEntry| spec_is_panel_entry(e),
            ).map_values(|e: RawDirEntry| e.path@);
            if spec_is_child_folder_entry(entries@[i as int]) {
                assert(fsel =~= pre_f.push(entries@[i as int].path@));
            } else {
                assert(fsel =~= pre_f);
            }
            if spec_is_panel_entry(entries@[i as int]) {
                assert(psel =~= pre_p.push(entries@[i as int].path@));
            } else {
                assert(psel =~= pre_p);
            }
        }
    }
    proof {
        assert(entries@.subrange(0, n as int) =~= entries@);
    }
    (folders, panels)
}

/// The set of paths a string list holds.
pub open spec fn spec_string_set(v: Seq<String>) -> Set<Seq<char>> {
    Set::new(|p: Seq<char>| exists|i: int| 0 <= i < v.len() && (#[trigger] v[i])@ == p)
}

/// The set of paths a record list holds.
pub open spec fn spec_path_set<O: HasPath>(v: Seq<O>) -> Set<Seq<char>> {
    Set::new(|p: Seq<char>| exists|i: int| 0 <= i < v.len() && (#[trigger] v[i]).spec_path() == p)
}

/// The set of paths a sighting list holds.
pub open spec fn spec_sighting_set(v: Seq<PanelSighting>) -> Set<Seq<char>> {
    Set::new(|p: Seq<char>| exists|i: int| 0 <= i < v.len() && (#[trigger] v[i]).path@ == p)
}

/// Whether some string of the list reads `p`.
pub fn contains_string(v: &Vec<String>, p: &str) -> (r: bool)
    ensures
        r == spec_string_set(v@).contains(p@),
{
    let n = v.len();
    for i in 0..n
        invariant
            n == v@.len(),
            forall|k: int| 0 <= k < i ==> (#[trigger] v@[k])@ != p@,
    {
        if str_eq(v[i].as_str(), p) {
            return true;
        }
    }
    false
}

/// Whether some record of the list carries the path `p`.
pub fn contains_path<O: HasPath>(v: &Vec<O>, p: &str) -> (r: bool)
    ensures
        r == spec_path_set(v@).contains(p@),
{
    let n = v.len();
    for i in 0..n
        invariant
            n == v@.len(),
            forall|k: int| 0 <= k < i ==> (#[trigger] v@[k]).spec_path() != p@,
    {
        if str_eq(v[i].path(), p) {
            return true;
        }
    }
    false
}

/// Whether some sighting of the list carries the path `p`.
pub fn contains_sighting_path(v: &Vec<PanelSighting>, p: &str) -> (r: bool)
    ensures
        r == spec_sighting_set(v@).contains(p@),
{
    let n = v.len();
    for i in 0..n
        invariant
            n == v@.len(),
            forall|k: int| 0 <= k < i ==> (#[trigger] v@[k]).path@ != p@,
    {
        if str_eq(v[i].path.as_str(), p) {
            return true;
        }
    }
    false
}

/// The symmetric difference of the old and new path sets.
pub open spec fn spec_symdiff(a: Set<Seq<char>>, b: Set<Seq<char>>) -> Set<Seq<char>> {
    a.difference(b).union(b.difference(a))
}

/// The paths present on exactly one side of old records versus new
/// listing, or `None` when the two sides list the same paths.
pub fn find_missing_paths<O: HasPath>(old: &Vec<O>, new: &Vec<String>) -> (r: Option<Vec<String>>)
    ensures
        ({
            let os = spec_path_set(old@);
            let ns = spec_string_set(new@);
            match r {
                None => os == ns,
                Some(v) => {
                    &&& os != ns
                    &&& spec_string_set(v@) == spec_symdiff(os, ns)
                    &&& spec_string_views(v@).no_duplicates()
                },
            }
        }),
{
    let ghost os = spec_path_set(old@);
    let ghost ns = spec_string_set(new@);
    let mut missing: Vec<String> = Vec::new();
    let n_old = old.len();
    for i in 0..n_old
        invariant
            n_old == old@.len(),
            os == spec_path_set(old@),
            ns == spec_string_set(new@),
            spec_string_views(missing@).no_duplicates(),
            forall|q: Seq<char>|
                #[trigger] spec_string_set(missing@).contains(q) ==> os.contains(q)
                    && !ns.contains(q),
            forall|k: int|
                0 <= k < i && !ns.contains((#[trigger] old@[k]).spec_path()) ==> spec_string_set(
                    missing@,
                ).contains(old@[k].spec_path()),
    {
        let p = old[i].path();
        if !contains_string(new, p) && !contains_string(&missing, p) {
            let ghost pre = missing@;
            missing.push(String::from_str(p));
            proof {
                assert(spec_string_views(missing@) =~= spec_string_views(pre).push(p@));
                assert forall|q: Seq<char>|
                    #[trigger] spec_string_set(missing@).contains(q) implies os.contains(q)
                    && !ns.contains(q) by {
                    let w = choose|w: int|
                        0 <= w < missing@.len() && (#[trigger] missing@[w])@ == q;
                    if w < pre.len() {
                        assert(pre[w]@ == q);
                        assert(spec_string_set(pre).contains(q));
                    } else {
                        assert(q == old@[i as int].spec_path());
                    }
                }
                assert forall|k: int|
                    0 <= k < i + 1 && !ns.contains((#[trigger] old@[k]).spec_path()) implies
                    spec_string_set(missing@).contains(old@[k].spec_path()) by {
                    let q = old@[k].spec_path();
                    if k < i {
                        assert(spec_string_set(pre).contains(q));
                        let w = choose|w: int| 0 <= w < pre.len() && (#[trigger] pre[w])@ == q;
                        assert(missing@[w]@ == q);
                    } else {
                        assert(missing@[missing@.len() - 1]@ == q);
                    }
                }
            }
        } else {
            proof {
                assert forall|k: int|
                    0 <= k < i + 1 && !ns.contains((#[trigger] old@[k]).spec_path()) implies
                    spec_string_set(missing@).contains(old@[k].spec_path()) by {
                    if k == i {
                        assert(spec_string_set(missing@).contains(old@[i as int].spec_path()));
                    }
                }
            }
        }
    }
    let ghost after_old = missing@;
    let n_new = new.len();
    for i in 0..n_new
        invariant
            n_new == new@.len(),
            os == spec_path_set(old@),
            ns == spec_string_set(new@),
            spec_string_views(missing@).no_duplicates(),
            forall|q: Seq<char>|
                #[trigger] spec_string_set(missing@).contains(q) ==> (os.contains(q)
                    && !ns.contains(q)) || (ns.contains(q) && !os.contains(q)),
            forall|k: int|
                0 <= k < old@.len() && !ns.contains((#[trigger] old@[k]).spec_path())
                    ==> spec_string_set(missing@).contains(old@[k].spec_path()),
            forall|k: int|
                0 <= k < i && !os.contains((#[trigger] new@[k])@) ==> spec_string_set(
                    missing@,
                ).contains(new@[k]@),
    {
        let p = new[i].as_str();
        if !contains_path(old, p) && !contains_string(&missing, p) {
            let ghost pre = missing@;
            missing.push(String::from_str(p));
            proof {
                assert(ns.contains(new@[i as int]@));
                assert(spec_string_views(missing@) =~= spec_string_views(pre).push(p@));
                assert forall|q: Seq<char>|
                    #[trigger] spec_string_set(missing@).contains(q) implies (os.contains(q)
                    && !ns.contains(q)) || (ns.contains(q) && !os.contains(q)) by {
                    let w = choose|w: int|
                        0 <= w < missing@.len() && (#[trigger] missing@[w])@ == q;
                    if w < pre.len() {
                        assert(pre[w]@ == q);
                        assert(spec_string_set(pre).contains(q));
                    } else {
                        assert(q == new@[i as int]@);
                    }
                }
                assert forall|k: int|
                    0 <= k < old@.len() && !ns.contains((#[trigger] old@[k]).spec_path()) implies
                    spec_string_set(missing@).contains(old@[k].spec_path()) by {
                    let q = old@[k].spec_path();
                    assert(spec_string_set(pre).contains(q));
                    let w = choose|w: int| 0 <= w < pre.len() && (#[trigger] pre[w])@ == q;
                    assert(missing@[w]@ == q);
                }
                assert forall|k: int|
                    0 <= k < i + 1 && !os.contains((#[trigger] new@[k])@) implies spec_string_set(
                    missing@,
                ).contains(new@[k]@) by {
                    let q = new@[k]@;
                    if k < i {
                        assert(spec_string_set(pre).contains(q));
                        let w = choose|w: int| 0 <= w < pre.len() && (#[trigger] pre[w])@ == q;
                        assert(missing@[w]@ == q);
                    } else {
                        assert(missing@[missing@.len() - 1]@ == q);
                    }
                }
            }
        } else {
            proof {
                assert forall|k: int|
                    0 <= k < i + 1 && !os.contains((#[trigger] new@[k])@) implies spec_string_set(
                    missing@,
                ).contains(new@[k]@) by {
                    if k == i {
                        assert(spec_string_set(missing@).contains(new@[i as int]@));
                    }
                }
            }
        }
    }
    if missing.len() == 0 {
        proof {
            assert forall|q: Seq<char>| os.contains(q) implies ns.contains(q) by {
                if !ns.contains(q) {
                    let k = choose|k: int|
                        0 <= k < old@.len() && (#[trigger] old@[k]).spec_path() == q;
                    assert(spec_string_set(missing@).contains(q));
                    let w = choose|w: int|
                        0 <= w < missing@.len() && (#[trigger] missing@[w])@ == q;
                }
            }
            assert forall|q: Seq<char>| ns.contains(q) implies os.contains(q) by {
                if !os.contains(q) {
                    let k = choose|k: int|
                        0 <= k < new@.len() && (#[trigger] new@[k])@ == q;
                    assert(spec_string_set(missing@).contains(q));
                    let w = choose|w: int|
                        0 <= w < missing@.len() && (#[trigger] missing@[w])@ == q;
                }
            }
            assert(os =~= ns);
        }
        None
    } else {
        proof {
            assert(missing@[0]@ == missing@[0]@);
            assert(spec_string_set(missing@).contains(missing@[0]@));
            let q0 = missing@[0]@;
            if os.contains(q0) && !ns.contains(q0) {
                assert(os != ns);
            } else {
                assert(ns.contains(q0) && !os.contains(q0));
                assert(os != ns);
            }
            assert forall|q: Seq<char>| spec_symdiff(os, ns).contains(q) implies spec_string_set(
                missing@,
            ).contains(q) by {
                if os.contains(q) && !ns.contains(q) {
                    let k = choose|k: int|
                        0 <= k < old@.len() && (#[trigger] old@[k]).spec_path() == q;
                } else {
                    let k = choose|k: int| 0 <= k < new@.len() && (#[trigger] new@[k])@ == q;
                }
            }
            assert(spec_string_set(missing@) =~= spec_symdiff(os, ns));
        }
        Some(missing)
    }
}

/// The last stored panel that carries the given path, or none; later
/// records shadow earlier ones, as a keyed store would.
pub open spec fn spec_last_panel_index(s: Seq<MangaPanel>, p: Seq<char>) -> int
    decreases s.len(),
{
    if s.len() == 0 {
        -1
    } else if s.last().path@ == p {
        s.len() - 1
    } else {
        spec_last_panel_index(s.drop_last(), p)
    }
}

pub proof fn lemma_last_panel_index(s: Seq<MangaPanel>, p: Seq<char>)
    ensures
        -1 <= spec_last_panel_index(s, p) < s.len(),
        spec_last_panel_index(s, p) >= 0 ==> s[spec_last_panel_index(s, p)].path@ == p,
        forall|k: int| spec_last_panel_index(s, p) < k < s.len() ==> s[k].path@ != p,
    decreases s.len(),
{
    if s.len() > 0 && s.last().path@ != p {
        lemma_last_panel_index(s.drop_last(), p);
        assert forall|k: int|
            spec_last_panel_index(s, p) < k < s.len() implies s[k].path@ != p by {
            if k < s.len() - 1 {
                assert(s.drop_last()[k] == s[k]);
            }
        }
    }
}

/// Whether a sighted panel counts as stale against the stored records:
/// never recorded under that path, or recorded with metadata that no
/// longer matches.
pub open spec fn spec_sighting_stale(old: Seq<MangaPanel>, s: PanelSighting) -> bool {
    let i = spec_last_panel_index(old, s.path@);
    i < 0 || MangaPanel::spec_is_stale(old[i].metadata, s.metadata)
}

/// Every path the metadata diff must refresh: sighted panels that are new
/// or stale, and recorded panels that are no longer sighted.
pub open spec fn spec_stale_panel_set(old: Seq<MangaPanel>, new: Seq<PanelSighting>) -> Set<
    Seq<char>,
> {
    Set::new(
        |p: Seq<char>|
            (exists|i: int|
                0 <= i < new.len() && (#[trigger] new[i]).path@ == p && spec_sighting_stale(
                    old,
                    new[i],
                )) || (spec_path_set(old).contains(p) && !spec_sighting_set(new).contains(p)),
    )
}

/// The stored panel that a sighting is compared against.
fn last_panel_index(old: &Vec<MangaPanel>, p: &str) -> (r: Option<usize>)
    ensures
        match r {
            Some(i) => i < old@.len() && spec_last_panel_index(old@, p@) == i as int,
            None => spec_last_panel_index(old@, p@) == -1,
        },
{
    proof {
        lemma_last_panel_index(old@, p@);
    }
    let n = old.len();
    let mut j = n;
    loop
        invariant
            0 <= j <= n,
            n == old@.len(),
            forall|k: int| j <= k < n ==> old@[k].path@ != p@,
            spec_last_panel_index(old@, p@) < j,
        decreases j,
    {
        proof {
            lemma_last_panel_index(old@, p@);
        }
        if j == 0 {
            return None;
        }
        if str_eq(old[j - 1].path.as_str(), p) {
            proof {
                assert(spec_last_panel_index(old@, p@) == j - 1);
            }
            return Some(j - 1);
        }
        j = j - 1;
    }
}

/// The paths whose metadata must be refreshed, or `None` when every
/// sighted panel matches its record and no recorded panel has vanished
/// from the listing.
pub fn find_stale_metadata(old: &Vec<MangaPanel>, new: &Vec<PanelSighting>) -> (r: Option<
    Vec<String>,
>)
    ensures
        ({
            let stale = spec_stale_panel_set(old@, new@);
            match r {
                None => stale == Set::<Seq<char>>::empty(),
                Some(v) => {
                    &&& stale != Set::<Seq<char>>::empty()
                    &&& spec_string_set(v@) == stale
                    &&& spec_string_views(v@).no_duplicates()
                },
            }
        }),
{
    let ghost stale = spec_stale_panel_set(old@, new@);
    let mut result: Vec<String> = Vec::new();
    let n_new = new.len();
    for i in 0..n_new
        invariant
            n_new == new@.len(),
            spec_string_views(result@).no_duplicates(),
            stale == spec_stale_panel_set(old@, new@),
            forall|q: Seq<char>| #[trigger] spec_string_set(result@).contains(q) ==> stale.contains(q),
            forall|k: int|
                0 <= k < i && spec_sighting_stale(old@, #[trigger] new@[k]) ==> spec_string_set(
                    result@,
                ).contains(new@[k].path@),
    {
        let s = &new[i];
        let is_stale = match last_panel_index(old, s.path.as_str()) {
            Some(idx) => old[idx].is_stale_metadata(&s.metadata),
            None => true,
        };
        if is_stale && !contains_string(&result, s.path.as_str()) {
            let ghost pre = result@;
            result.push(s.path.clone());
            proof {
                assert(spec_string_views(result@) =~= spec_string_views(pre).push(
                    new@[i as int].path@,
                ));
                assert forall|q: Seq<char>|
                    #[trigger] spec_string_set(result@).contains(q) implies stale.contains(q) by {
                    let w = choose|w: int|
                        0 <= w < result@.len() && (#[trigger] result@[w])@ == q;
                    if w < pre.len() {
                        assert(pre[w]@ == q);
                        assert(spec_string_set(pre).contains(q));
                    } else {
                        assert(q == new@[i as int].path@);
                    }
                }
                assert forall|k: int|
                    0 <= k < i + 1 && spec_sighting_stale(old@, #[trigger] new@[k]) implies
                    spec_string_set(result@).contains(new@[k].path@) by {
                    let q = new@[k].path@;
                    if k < i {
                        assert(spec_string_set(pre).contains(q));
                        let w = choose|w: int| 0 <= w < pre.len() && (#[trigger] pre[w])@ == q;
                        assert(result@[w]@ == q);
                    } else {
                        assert(result@[result@.len() - 1]@ == q);
                    }
                }
            }
        } else {
            proof {
                assert forall|k: int|
                    0 <= k < i + 1 && spec_sighting_stale(old@, #[trigger] new@[k]) implies
                    spec_string_set(result@).contains(new@[k].path@) by {
                    if k == i {
                        assert(spec_string_set(result@).contains(new@[i as int].path@));
                    }
                }
            }
        }
    }
    let n_old = old.len();
    for j in 0..n_old
        invariant
            n_old == old@.len(),
            spec_string_views(result@).no_duplicates(),
            stale == spec_stale_panel_set(old@, new@),
            forall|q: Seq<char>| #[trigger] spec_string_set(result@).contains(q) ==> stale.contains(q),
            forall|k: int|
                0 <= k < new@.len() && spec_sighting_stale(old@, #[trigger] new@[k])
                    ==> spec_string_set(result@).contains(new@[k].path@),
            forall|k: int|
                0 <= k < j && !spec_sighting_set(new@).contains((#[trigger] old@[k]).path@)
                    ==> spec_string_set(result@).contains(old@[k].path@),
    {
        let p = &old[j];
        if !contains_sighting_path(new, p.path.as_str()) && !contains_string(
            &result,
            p.path.as_str(),
        ) {
            let ghost pre = result@;
            result.push(p.path.clone());
            proof {
                assert(spec_string_views(result@) =~= spec_string_views(pre).push(
                    old@[j as int].path@,
                ));
                assert forall|q: Seq<char>|
                    #[trigger] spec_string_set(result@).contains(q) implies stale.contains(q) by {
                    let w = choose|w: int|
                        0 <= w < result@.len() && (#[trigger] result@[w])@ == q;
                    if w < pre.len() {
                        assert(pre[w]@ == q);
                        assert(spec_string_set(pre).contains(q));
                    } else {
                        assert(q == old@[j as int].path@);
                        assert(spec_path_set(old@).contains(q));
                    }
                }
                assert forall|k: int|
                    0 <= k < new@.len() && spec_sighting_stale(old@, #[trigger] new@[k]) implies
                    spec_string_set(result@).contains(new@[k].path@) by {
                    let q = new@[k].path@;
                    assert(spec_string_set(pre).contains(q));
                    let w = choose|w: int| 0 <= w < pre.len() && (#[trigger] pre[w])@ == q;
                    assert(result@[w]@ == q);
                }
                assert forall|k: int|
                    0 <= k < j + 1 && !spec_sighting_set(new@).contains(
                        (#[trigger] old@[k]).path@,
                    ) implies spec_string_set(result@).contains(old@[k].path@) by {
                    let q = old@[k].path@;
                    if k < j {
                        assert(spec_string_set(pre).contains(q));
                        let w = choose|w: int| 0 <= w < pre.len() && (#[trigger] pre[w])@ == q;
                        assert(result@[w]@ == q);
                    } else {
                        assert(result@[result@.len() - 1]@ == q);
                    }
                }
            }
        } else {
            proof {
                assert forall|k: int|
                    0 <= k < j + 1 && !spec_sighting_set(new@).contains(
                        (#[trigger] old@[k]).path@,
                    ) implies spec_string_set(result@).contains(old@[k].path@) by {
                    if k == j {
                        assert(spec_string_set(result@).contains(old@[j as int].path@));
                    }
                }
            }
        }
    }
    if result.len() == 0 {
        proof {
            assert forall|q: Seq<char>| !stale.contains(q) by {
                if stale.contains(q) {
                    if exists|i: int|
                        0 <= i < new@.len() && (#[trigger] new@[i]).path@ == q
                            && spec_sighting_stale(old@, new@[i]) {
                        let i = choose|i: int|
                            0 <= i < new@.len() && (#[trigger] new@[i]).path@ == q
                                && spec_sighting_stale(old@, new@[i]);
                        assert(spec_string_set(result@).contains(q));
                        let w = choose|w: int|
                            0 <= w < result@.len() && (#[trigger] result@[w])@ == q;
                    } else {
                        let k = choose|k: int|
                            0 <= k < old@.len() && (#[trigger] old@[k]).path@ == q;
                        assert(spec_string_set(result@).contains(q));
                        let w = choose|w: int|
                            0 <= w < result@.len() && (#[trigger] result@[w])@ == q;
                    }
                }
            }
            assert(stale =~= Set::<Seq<char>>::empty());
        }
        None
    } else {
        proof {
            assert(spec_string_set(result@).contains(result@[0]@));
            assert(stale.contains(result@[0]@));
            assert(stale != Set::<Seq<char>>::empty());
            assert forall|q: Seq<char>| stale.contains(q) implies spec_string_set(
                result@,
            ).contains(q) by {
                if exists|i: int|
                    0 <= i < new@.len() && (#[trigger] new@[i]).path@ == q && spec_sighting_stale(
                        old@,
                        new@[i],
                    ) {
                    let i = choose|i: int|
                        0 <= i < new@.len() && (#[trigger] new@[i]).path@ == q
                            && spec_sighting_stale(old@, new@[i]);
                } else {
                    let k = choose|k: int|
                        0 <= k < old@.len() && (#[trigger] old@[k]).path@ == q;
                }
            }
            assert(spec_string_set(result@) =~= stale);
        }
        Some(result)
    }
}

/// What a staleness check found: no stored state at all (a first scan),
/// nothing changed, or the narrowed sets of stale directory paths, stale
/// panel paths, and records whose paths vanished from disk.
#[derive(Debug)]
pub enum StaleEntries {
    NoPriorState,
    NoChange,
    Found {
        dirs: Option<Vec<String>>,
        panels: Option<Vec<String>>,
        deleted: Option<(Vec<OsFolder>, Vec<MangaPanel>)>,
    },
}

impl StaleEntries {
    /// Whether the check found no stale entries.
    pub open spec fn spec_is_none(&self) -> bool {
        !(self matches StaleEntries::Found { .. })
    }

    pub fn is_none(&self) -> (r: bool)
        ensures
            r == self.spec_is_none(),
    {
        match self {
            StaleEntries::Found { .. } => false,
            _ => true,
        }
    }
}

/// Stored folders whose paths no longer exist on disk.
pub open spec fn spec_deleted_dirs(od: Seq<OsFolder>, ex: Set<Seq<char>>) -> Seq<OsFolder> {
    od.filter(|f: OsFolder| !ex.contains(f.path@))
}

/// Stored folders whose paths still exist.
pub open spec fn spec_kept_dirs(od: Seq<OsFolder>, ex: Set<Seq<char>>) -> Seq<OsFolder> {
    od.filter(|f: OsFolder| ex.contains(f.path@))
}

/// Stored panels whose paths no longer exist on disk.
pub open spec fn spec_deleted_panels(op: Seq<MangaPanel>, ex: Set<Seq<char>>) -> Seq<MangaPanel> {
    op.filter(|p: MangaPanel| !ex.contains(p.path@))
}

/// Stored panels whose paths still exist.
pub open spec fn spec_kept_panels(op: Seq<MangaPanel>, ex: Set<Seq<char>>) -> Seq<MangaPanel> {
    op.filter(|p: MangaPanel| ex.contains(p.path@))
}

fn split_dirs_by_existence(od: &Vec<OsFolder>, existing: &Vec<String>) -> (r: (
    Vec<OsFolder>,
    Vec<OsFolder>,
))
    ensures
        r.0@ == spec_kept_dirs(od@, spec_string_set(existing@)),
        r.1@ == spec_deleted_dirs(od@, spec_string_set(existing@)),
{
    let ghost ex = spec_string_set(existing@);
    let n = od.len();
    let mut kept: Vec<OsFolder> = Vec::new();
    let mut deleted: Vec<OsFolder> = Vec::new();
    proof {
        assert(od@.subrange(0, 0) =~= Seq::<OsFolder>::empty());
        lemma_filter_empty(|f: OsFolder| ex.contains(f.path@));
        lemma_filter_empty(|f: OsFolder| !ex.contains(f.path@));
    }
    for i in 0..n
        invariant
            n == od@.len(),
            ex == spec_string_set(existing@),
            kept@ == spec_kept_dirs(od@.subrange(0, i as int), ex),
            deleted@ == spec_deleted_dirs(od@.subrange(0, i as int), ex),
    {
        proof {
            lemma_filter_step(od@, i as int, |f: OsFolder| ex.contains(f.path@));
            lemma_filter_step(od@, i as int, |f: OsFolder| !ex.contains(f.path@));
        }
        let f = &od[i];
        if contains_string(existing, f.path.as_str()) {
            kept.push(f.deep_clone());
        } else {
            deleted.push(f.deep_clone());
        }
    }
    proof {
        assert(od@.subrange(0, n as int) =~= od@);
    }
    (kept, deleted)
}

fn split_panels_by_existence(op: &Vec<MangaPanel>, existing: &Vec<String>) -> (r: (
    Vec<MangaPanel>,
    Vec<MangaPanel>,
))
    ensures
        r.0@ == spec_kept_panels(op@, spec_string_set(existing@)),
        r.1@ == spec_deleted_panels(op@, spec_string_set(existing@)),
{
    let ghost ex = spec_string_set(existing@);
    let n = op.len();
    let mut kept: Vec<MangaPanel> = Vec::new();
    let mut deleted: Vec<MangaPanel> = Vec::new();
    proof {
        assert(op@.subrange(0, 0) =~= Seq::<MangaPanel>::empty());
        lemma_filter_empty(|p: MangaPanel| ex.contains(p.path@));
        lemma_filter_empty(|p: MangaPanel| !ex.contains(p.path@));
    }
    for i in 0..n
        invariant
            n == op@.len(),
            ex == spec_string_set(existing@),
            kept@ == spec_kept_panels(op@.subrange(0, i as int), ex),
            deleted@ == spec_deleted_panels(op@.subrange(0, i as int), ex),
    {
        proof {
            lemma_filter_step(op@, i as int, |p: MangaPanel| ex.contains(p.path@));
            lemma_filter_step(op@, i as int, |p: MangaPanel| !ex.contains(p.path@));
        }
        let p = &op[i];
        if contains_string(existing, p.path.as_str()) {
            kept.push(p.deep_clone());
        } else {
            deleted.push(p.deep_clone());
        }
    }
    proof {
        assert(op@.subrange(0, n as int) =~= op@);
    }
    (kept, deleted)
}

/// Diffs the current listing of a directory against its stored records.
/// `new_dirs` and `new_panels` are what the classifier saw on disk;
/// `old_dirs` and `old_panels` are the stored records, absent on a first
/// scan; `existing` lists which of the stored record paths still exist.
/// Deletions are judged by existence alone, apart from the diff, so a
/// rename and a deletion are never conflated.
pub fn find_stale_entries(
    new_dirs: &Vec<String>,
    new_panels: &Vec<PanelSighting>,
    old_dirs: &Option<Vec<OsFolder>>,
    old_panels: &Option<Vec<MangaPanel>>,
    existing: &Vec<String>,
) -> (r: StaleEntries)
    ensures
        ({
            let ex = spec_string_set(existing@);
            let od = match *old_dirs {
                Some(v) => v@,
                None => Seq::<OsFolder>::empty(),
            };
            let op = match *old_panels {
                Some(v) => v@,
                None => Seq::<MangaPanel>::empty(),
            };
            let ods = spec_path_set(spec_kept_dirs(od, ex));
            let nds = spec_string_set(new_dirs@);
            let stale = spec_stale_panel_set(spec_kept_panels(op, ex), new_panels@);
            let changed = ods != nds || stale != Set::<Seq<char>>::empty() || spec_deleted_dirs(
                od,
                ex,
            ).len() > 0 || spec_deleted_panels(op, ex).len() > 0;
            &&& (r is NoPriorState) <==> (old_dirs is None && old_panels is None)
            &&& !(old_dirs is None && old_panels is None) ==> ((r is NoChange) <==> !changed)
            &&& !(old_dirs is None && old_panels is None) && changed ==> (r matches
                StaleEntries::Found { dirs, panels, deleted } && {
                &&& match dirs {
                    Some(v) => ods != nds && spec_string_set(v@) == spec_symdiff(ods, nds)
                        && spec_string_views(v@).no_duplicates(),
                    None => ods == nds,
                }
                &&& match panels {
                    Some(v) => stale != Set::<Seq<char>>::empty() && spec_string_set(v@) == stale
                        && spec_string_views(v@).no_duplicates(),
                    None => stale == Set::<Seq<char>>::empty(),
                }
                &&& (deleted matches Some(d) && d.0@ == spec_deleted_dirs(od, ex) && d.1@
                    == spec_deleted_panels(op, ex))
            })
        }),
{
    if old_dirs.is_none() && old_panels.is_none() {
        return StaleEntries::NoPriorState;
    }
    let empty_f: Vec<OsFolder> = Vec::new();
    let empty_p: Vec<MangaPanel> = Vec::new();
    let od: &Vec<OsFolder> = match old_dirs {
        Some(v) => v,
        None => &empty_f,
    };
    let op: &Vec<MangaPanel> = match old_panels {
        Some(v) => v,
        None => &empty_p,
    };
    let (kept_dirs, deleted_dirs) = split_dirs_by_existence(od, existing);
    let (kept_panels, deleted_panels) = split_panels_by_existence(op, existing);
    let dirs = find_missing_paths(&kept_dirs, new_dirs);
    let panels = find_stale_metadata(&kept_panels, new_panels);
    if dirs.is_none() && panels.is_none() && deleted_dirs.len() == 0 && deleted_panels.len()
        == 0 {
        StaleEntries::NoChange
    } else {
        StaleEntries::Found { dirs, panels, deleted: Some((deleted_dirs, deleted_panels)) }
    }
}

/// A plain snapshot of one directory subtree, as the host walked it: the
/// directory's path, its own entry size (`None` when unreadable), the
/// panel files sighted directly in it, and its non-empty sub-directories.
#[derive(Debug)]
pub struct FsDirTree {
    pub path: String,
    pub size: Option<u64>,
    pub panels: Vec<PanelSighting>,
    pub children: Vec<FsDirTree>,
}

/// The record group one directory synchronization yields: the folder, all
/// descendant folders, and all panels under it.
pub type FolderGroup = (OsFolder, Vec<OsFolder>, Vec<MangaPanel>);

/// The ghost image of a folder group.
pub type SpecGroup = (SpecFolder, Seq<SpecFolder>, Seq<SpecPanel>);

/// The stale directory scope a staleness result narrows a scan to; `None`
/// means no narrowing.
pub open spec fn spec_scope_dirs(st: StaleEntries) -> Option<Set<Seq<char>>> {
    match st {
        StaleEntries::Found { dirs, .. } => Some(
            match dirs {
                Some(v) => spec_string_set(v@),
                None => Set::<Seq<char>>::empty(),
            },
        ),
        _ => None,
    }
}

/// The stale panel scope a staleness result narrows a scan to.
pub open spec fn spec_scope_panels(st: StaleEntries) -> Option<Set<Seq<char>>> {
    match st {
        StaleEntries::Found { panels, .. } => Some(
            match panels {
                Some(v) => spec_string_set(v@),
                None => Set::<Seq<char>>::empty(),
            },
        ),
        _ => None,
    }
}

/// Whether a path falls inside a scope.
pub open spec fn spec_in_scope(p: Seq<char>, scope: Option<Set<Seq<char>>>) -> bool {
    match scope {
        Some(s) => s.contains(p),
        None => true,
    }
}

/// The panel record a sighting becomes.
pub open spec fn spec_panel_of_sighting(
    s: PanelSighting,
    user_id: Seq<char>,
    parent: Seq<char>,
    date: Seq<char>,
    time: Seq<char>,
) -> SpecPanel {
    SpecPanel {
        user_id: user_id,
        path: s.path@,
        title: spec_file_name(s.path@),
        parent_path: parent,
        metadata: s.metadata,
        is_read: false,
        update_date: date,
        update_time: time,
    }
}

/// The panels a directory builds from its own sightings, before sorting:
/// those in scope whose paths yield a file name, in sighting order.
pub open spec fn spec_own_panels_raw(
    panels: Seq<PanelSighting>,
    scope: Option<Set<Seq<char>>>,
    user_id: Seq<char>,
    parent: Seq<char>,
    date: Seq<char>,
    time: Seq<char>,
) -> Seq<SpecPanel> {
    panels.filter(
        |p: PanelSighting| spec_in_scope(p.path@, scope) && spec_file_name(p.path@).len() > 0,
    ).map_values(|p: PanelSighting| spec_panel_of_sighting(p, user_id, parent, date, time))
}

pub proof fn lemma_own_panels_raw_empty(
    scope: Option<Set<Seq<char>>>,
    user_id: Seq<char>,
    parent: Seq<char>,
    date: Seq<char>,
    time: Seq<char>,
)
    ensures
        spec_own_panels_raw(Seq::<PanelSighting>::empty(), scope, user_id, parent, date, time)
            == Seq::<SpecPanel>::empty(),
{
    lemma_filter_empty(
        |p: PanelSighting| spec_in_scope(p.path@, scope) && spec_file_name(p.path@).len() > 0,
    );
    assert(spec_own_panels_raw(Seq::<PanelSighting>::empty(), scope, user_id, parent, date, time)
        =~= Seq::<SpecPanel>::empty());
}

pub proof fn lemma_own_panels_raw_step(
    panels: Seq<PanelSighting>,
    i: int,
    scope: Option<Set<Seq<char>>>,
    user_id: Seq<char>,
    parent: Seq<char>,
    date: Seq<char>,
    time: Seq<char>,
)
    requires
        0 <= i < panels.len(),
    ensures
        spec_own_panels_raw(panels.subrange(0, i + 1), scope, user_id, parent, date, time) == if (
        spec_in_scope(panels[i].path@, scope) && spec_file_name(panels[i].path@).len() > 0) {
            spec_own_panels_raw(panels.subrange(0, i), scope, user_id, parent, date, time).push(
                spec_panel_of_sighting(panels[i], user_id, parent, date, time),
            )
        } else {
            spec_own_panels_raw(panels.subrange(0, i), scope, user_id, parent, date, time)
        },
{
    let pred = |p: PanelSighting|
        spec_in_scope(p.path@, scope) && spec_file_name(p.path@).len() > 0;
    let f = |p: PanelSighting| spec_panel_of_sighting(p, user_id, parent, date, time);
    lemma_filter_step(panels, i, pred);
    if pred(panels[i]) {
        assert(panels.subrange(0, i + 1).filter(pred).map_values(f) =~= panels.subrange(
            0,
            i,
        ).filter(pred).map_values(f).push(f(panels[i])));
    }
}

/// The ghost images of a panel record list.
pub open spec fn panel_views(s: Seq<MangaPanel>) -> Seq<SpecPanel> {
    s.map_values(|p: MangaPanel| p@)
}

/// The ghost images of a folder record list.
pub open spec fn folder_views(s: Seq<OsFolder>) -> Seq<SpecFolder> {
    s.map_values(|f: OsFolder| f@)
}

/// The chapter-order keys of ghost panels.
pub open spec fn spec_panel_keys_v(s: Seq<SpecPanel>) -> Seq<u64> {
    Seq::new(s.len(), |i: int| spec_episode_key(s[i].title))
}

/// Ghost panels stably sorted by the chapter-order heuristic.
pub open spec fn spec_sort_panels_v(s: Seq<SpecPanel>) -> Seq<SpecPanel> {
    spec_sort_by_order(s, spec_stable_order(spec_panel_keys_v(s)))
}

/// Sorting panel records and taking their images commute.
pub proof fn lemma_sort_episode_views(v: Seq<MangaPanel>)
    requires
        v.len() <= usize::MAX,
    ensures
        panel_views(spec_sort_episode(v)) == spec_sort_panels_v(panel_views(v)),
{
    let keys = spec_episode_keys(v);
    assert(keys =~= spec_panel_keys_v(panel_views(v)));
    lemma_stable_order_props(keys);
    let ord = spec_stable_order(keys);
    assert(panel_views(spec_sort_episode(v)) =~= spec_sort_by_order(panel_views(v), ord));
}

/// What one directory synchronization produces, or nothing when the
/// directory has no supported content or its path yields no title.  The
/// groups of in-scope children that themselves succeed are aggregated in
/// order: their folders and panels are concatenated, and the first cover
/// found among them covers a folder with no panels of its own.
pub open spec fn spec_sync_tree(
    tree: FsDirTree,
    user_id: Seq<char>,
    date: Seq<char>,
    time: Seq<char>,
    has_parent: bool,
    dir_scope: Option<Set<Seq<char>>>,
    panel_scope: Option<Set<Seq<char>>>,
) -> Option<SpecGroup>
    decreases tree,
{
    if tree.panels@.len() == 0 && tree.children@.len() == 0 {
        None
    } else if spec_file_name(tree.path@).len() == 0 {
        None
    } else {
        let own_raw = spec_own_panels_raw(
            tree.panels@,
            panel_scope,
            user_id,
            tree.path@,
            date,
            time,
        );
        let own = spec_sort_panels_v(own_raw);
        let groups = spec_child_groups(tree.children@, dir_scope, user_id, date, time);
        let cover = if own.len() > 0 {
            Some(own[0].path)
        } else {
            spec_first_cover(groups)
        };
        let folder = SpecFolder {
            user_id: user_id,
            path: tree.path@,
            title: spec_file_name(tree.path@),
            parent_path: if has_parent {
                Some(spec_parent(tree.path@))
            } else {
                None
            },
            last_read_panel: if own.len() > 0 {
                Some(own[0])
            } else {
                None
            },
            cover_img_path: cover,
            metadata: FolderMetadata::spec_from_parts(
                tree.size,
                own.len() as usize,
                groups.len() as usize,
            ),
            is_manga_folder: own.len() > 0,
            is_double_panels: false,
            is_read: false,
            zoom: 100,
            is_hidden: false,
            update_date: date,
            update_time: time,
        };
        Some((folder, spec_groups_folders(groups), own + spec_groups_panels(groups)))
    }
}

/// The groups of the in-scope children that synchronize successfully, in
/// child order.  A child that fails is left out; it does not abort its
/// siblings.
pub open spec fn spec_child_groups(
    children: Seq<FsDirTree>,
    scope: Option<Set<Seq<char>>>,
    user_id: Seq<char>,
    date: Seq<char>,
    time: Seq<char>,
) -> Seq<SpecGroup>
    decreases children,
{
    if children.len() == 0 {
        Seq::<SpecGroup>::empty()
    } else {
        let rest = spec_child_groups(
            children.subrange(0, children.len() - 1),
            scope,
            user_id,
            date,
            time,
        );
        let c = children[children.len() - 1];
        if !spec_in_scope(c.path@, scope) {
            rest
        } else {
            match spec_sync_tree(c, user_id, date, time, true, None, None) {
                Some(g) => rest.push(g),
                None => rest,
            }
        }
    }
}

/// The folder records a group list contributes, each group's own folder
/// before its descendants.
pub open spec fn spec_groups_folders(groups: Seq<SpecGroup>) -> Seq<SpecFolder>
    decreases groups.len(),
{
    if groups.len() == 0 {
        Seq::<SpecFolder>::empty()
    } else {
        spec_groups_folders(groups.drop_last()) + seq![groups.last().0] + groups.last().1
    }
}

/// The panel records a group list contributes.
pub open spec fn spec_groups_panels(groups: Seq<SpecGroup>) -> Seq<SpecPanel>
    decreases groups.len(),
{
    if groups.len() == 0 {
        Seq::<SpecPanel>::empty()
    } else {
        spec_groups_panels(groups.drop_last()) + groups.last().2
    }
}

/// The first cover image among the groups, in order.
pub open spec fn spec_first_cover(groups: Seq<SpecGroup>) -> Option<Seq<char>>
    decreases groups.len(),
{
    if groups.len() == 0 {
        None
    } else {
        match groups[0].0.cover_img_path {
            Some(c) => Some(c),
            None => spec_first_cover(groups.drop_first()),
        }
    }
}

pub proof fn lemma_first_cover_push(groups: Seq<SpecGroup>, g: SpecGroup)
    ensures
        spec_first_cover(groups.push(g)) == match spec_first_cover(groups) {
            Some(c) => Some(c),
            None => g.0.cover_img_path,
        },
    decreases groups.len(),
{
    reveal_with_fuel(spec_first_cover, 3);
    if groups.len() == 0 {
        assert(groups.push(g)[0] == g);
        assert(groups.push(g).drop_first() =~= Seq::<SpecGroup>::empty());
        assert(spec_first_cover(Seq::<SpecGroup>::empty()) is None);
    } else {
        assert(groups.push(g)[0] == groups[0]);
        assert(groups.push(g).drop_first() =~= groups.drop_first().push(g));
        lemma_first_cover_push(groups.drop_first(), g);
    }
}

pub proof fn lemma_groups_push(groups: Seq<SpecGroup>, g: SpecGroup)
    ensures
        spec_groups_folders(groups.push(g)) == spec_groups_folders(groups) + seq![g.0] + g.1,
        spec_groups_panels(groups.push(g)) == spec_groups_panels(groups) + g.2,
{
    assert(groups.push(g).drop_last() =~= groups);
    assert(groups.push(g).last() == g);
}

/// Synchronizes one directory subtree into records.  The subtree comes as
/// a plain snapshot; `stale_entries` narrows the work at the root of a
/// scan, while children are always synchronized in full.  Only the
/// presence of `parent_path` matters: the stored parent is derived from
/// the directory's own path.  A directory without supported content, or
/// whose path yields no title, is an error.
pub fn read_os_folder_dir(
    tree: &FsDirTree,
    user_id: &str,
    update_date: &str,
    update_time: &str,
    parent_path: Option<&str>,
    stale_entries: &StaleEntries,
) -> (r: Result<FolderGroup, ReadDirError>)
    ensures
        ({
            let m = spec_sync_tree(
                *tree,
                user_id@,
                update_date@,
                update_time@,
                parent_path is Some,
                spec_scope_dirs(*stale_entries),
                spec_scope_panels(*stale_entries),
            );
            match r {
                Ok(g) => m == Some((g.0@, folder_views(g.1@), panel_views(g.2@))),
                Err(e) => m is None && (if tree.panels@.len() == 0 && tree.children@.len() == 0 {
                    e matches ReadDirError::IoError(_)
                } else {
                    e matches ReadDirError::Path(_)
                }),
            }
        }),
    decreases *tree,
{
    let ghost dscope = spec_scope_dirs(*stale_entries);
    let ghost pscope = spec_scope_panels(*stale_entries);
    let n_panels = tree.panels.len();
    let n_children = tree.children.len();
    if n_panels == 0 && n_children == 0 {
        let msg = String::from_str(tree.path.as_str()).concat(" contains 0 supported files.");
        return Err(ReadDirError::IoError(msg));
    }
    let title = file_name_of(tree.path.as_str());
    if title.as_str().unicode_len() == 0 {
        return Err(ReadDirError::Path(tree.path.clone()));
    }
    let mut own: Vec<MangaPanel> = Vec::new();
    proof {
        assert(tree.panels@.subrange(0, 0) =~= Seq::<PanelSighting>::empty());
        lemma_own_panels_raw_empty(pscope, user_id@, tree.path@, update_date@, update_time@);
        assert(panel_views(own@) =~= Seq::<SpecPanel>::empty());
    }
    for i in 0..n_panels
        invariant
            n_panels == tree.panels@.len(),
            dscope == spec_scope_dirs(*stale_entries),
            pscope == spec_scope_panels(*stale_entries),
            panel_views(own@) == spec_own_panels_raw(
                tree.panels@.subrange(0, i as int),
                pscope,
                user_id@,
                tree.path@,
                update_date@,
                update_time@,
            ),
    {
        proof {
            lemma_own_panels_raw_step(
                tree.panels@,
                i as int,
                pscope,
                user_id@,
                tree.path@,
                update_date@,
                update_time@,
            );
        }
        let ghost pre = panel_views(own@);
        let s = &tree.panels[i];
        let in_scope = match stale_entries {
            StaleEntries::Found { panels, .. } => match panels {
                Some(v) => contains_string(v, s.path.as_str()),
                None => false,
            },
            _ => true,
        };
        if in_scope {
            match MangaPanel::new(
                String::from_str(user_id),
                tree.path.clone(),
                s.path.clone(),
                s.metadata,
                String::from_str(update_date),
                String::from_str(update_time),
            ) {
                Ok(p) => {
                    own.push(p);
                    proof {
                        assert(panel_views(own@) =~= pre.push(
                            spec_panel_of_sighting(
                                tree.panels@[i as int],
                                user_id@,
                                tree.path@,
                                update_date@,
                                update_time@,
                            ),
                        ));
                    }
                },
                Err(_) => {},
            }
        }
    }
    proof {
        assert(tree.panels@.subrange(0, n_panels as int) =~= tree.panels@);
    }
    let own_sorted = sort_episode(&own);
    let ghost own_views = panel_views(own_sorted@);
    proof {
        lemma_sort_episode_views(own@);
    }
    let own_len = own_sorted.len();
    let first_panel: Option<MangaPanel> = if own_sorted.len() > 0 {
        Some(own_sorted[0].deep_clone())
    } else {
        None
    };
    let mut cover: Option<String> = match &first_panel {
        Some(p) => Some(p.path.clone()),
        None => None,
    };
    let mut total_child_folders: Vec<OsFolder> = Vec::new();
    let mut total_panels: Vec<MangaPanel> = own_sorted;
    let mut groups_count: usize = 0;
    let full_scan = StaleEntries::NoPriorState;
    proof {
        assert(tree.children@.subrange(0, 0) =~= Seq::<FsDirTree>::empty());
        assert(folder_views(total_child_folders@) =~= Seq::<SpecFolder>::empty());
        assert(panel_views(total_panels@) =~= own_views + Seq::<SpecPanel>::empty());
    }
    for i in 0..n_children
        invariant
            n_children == tree.children@.len(),
            n_panels == tree.panels@.len(),
            dscope == spec_scope_dirs(*stale_entries),
            pscope == spec_scope_panels(*stale_entries),
            own_views == spec_sort_panels_v(
                spec_own_panels_raw(
                    tree.panels@,
                    pscope,
                    user_id@,
                    tree.path@,
                    update_date@,
                    update_time@,
                ),
            ),
            own_len == own_views.len(),
            spec_scope_dirs(full_scan) is None,
            spec_scope_panels(full_scan) is None,
            match first_panel {
                Some(p) => own_views.len() > 0 && p@ == own_views[0],
                None => own_views.len() == 0,
            },
            folder_views(total_child_folders@) == spec_groups_folders(
                spec_child_groups(
                    tree.children@.subrange(0, i as int),
                    dscope,
                    user_id@,
                    update_date@,
                    update_time@,
                ),
            ),
            panel_views(total_panels@) == own_views + spec_groups_panels(
                spec_child_groups(
                    tree.children@.subrange(0, i as int),
                    dscope,
                    user_id@,
                    update_date@,
                    update_time@,
                ),
            ),
            view_opt_str(cover) == (if own_views.len() > 0 {
                Some(own_views[0].path)
            } else {
                spec_first_cover(
                    spec_child_groups(
                        tree.children@.subrange(0, i as int),
                        dscope,
                        user_id@,
                        update_date@,
                        update_time@,
                    ),
                )
            }),
            groups_count == spec_child_groups(
                tree.children@.subrange(0, i as int),
                dscope,
                user_id@,
                update_date@,
                update_time@,
            ).len(),
            groups_count <= i,
    {
        let ghost prefix = spec_child_groups(
            tree.children@.subrange(0, i as int),
            dscope,
            user_id@,
            update_date@,
            update_time@,
        );
        proof {
            let sub1 = tree.children@.subrange(0, i + 1);
            assert(sub1.subrange(0, sub1.len() - 1) =~= tree.children@.subrange(0, i as int));
            assert(sub1[sub1.len() - 1] == tree.children@[i as int]);
        }
        let c = &tree.children[i];
        let in_scope = match stale_entries {
            StaleEntries::Found { dirs, .. } => match dirs {
                Some(v) => contains_string(v, c.path.as_str()),
                None => false,
            },
            _ => true,
        };
        if in_scope {
            proof {
                assert(decreases_to!(*tree => tree.children@[i as int]));
            }
            let res = read_os_folder_dir(
                c,
                user_id,
                update_date,
                update_time,
                Some(tree.path.as_str()),
                &full_scan,
            );
            match res {
                Ok(g) => {
                    let ghost gs: SpecGroup = (g.0@, folder_views(g.1@), panel_views(g.2@));
                    groups_count = groups_count + 1;
                    if cover.is_none() {
                        match &g.0.cover_img_path {
                            Some(cp) => {
                                cover = Some(cp.clone());
                            },
                            None => {},
                        }
                    }
                    let ghost pre_folders = folder_views(total_child_folders@);
                    let ghost pre_panels = panel_views(total_panels@);
                    let (gf, gcf, gps) = g;
                    total_child_folders.push(gf);
                    append_records(&mut total_child_folders, &gcf);
                    append_records(&mut total_panels, &gps);
                    proof {
                        lemma_groups_push(prefix, gs);
                        lemma_first_cover_push(prefix, gs);
                        assert(folder_views(total_child_folders@) =~= pre_folders + seq![gs.0]
                            + gs.1);
                        assert(panel_views(total_panels@) =~= pre_panels + gs.2);
                        assert(spec_child_groups(
                            tree.children@.subrange(0, i + 1),
                            dscope,
                            user_id@,
                            update_date@,
                            update_time@,
                        ) =~= prefix.push(gs));
                    }
                },
                Err(_) => {
                    proof {
                        assert(spec_child_groups(
                            tree.children@.subrange(0, i + 1),
                            dscope,
                            user_id@,
                            update_date@,
                            update_time@,
                        ) =~= prefix);
                    }
                },
            }
        } else {
            proof {
                assert(spec_child_groups(
                    tree.children@.subrange(0, i + 1),
                    dscope,
                    user_id@,
                    update_date@,
                    update_time@,
                ) =~= prefix);
            }
        }
    }
    proof {
        assert(tree.children@.subrange(0, n_children as int) =~= tree.children@);
    }
    let metadata = FolderMetadata::from_parts(tree.size, own_len, groups_count);
    let parent_str: Option<String> = match parent_path {
        Some(_) => Some(parent_of(tree.path.as_str())),
        None => None,
    };
    let folder = OsFolder {
        user_id: String::from_str(user_id),
        path: tree.path.clone(),
        title,
        parent_path: parent_str,
        last_read_panel: first_panel,
        cover_img_path: cover,
        metadata,
        is_manga_folder: own_len > 0,
        is_double_panels: false,
        is_read: false,
        zoom: 100,
        is_hidden: false,
        update_date: String::from_str(update_date),
        update_time: String::from_str(update_time),
    };
    Ok((folder, total_child_folders, total_panels))
}

/// Where a folder's compressed cover artifact lives: under the app data
/// directory, in `covers`, keyed by the folder's ancestry, named after the
/// source image's stem with a fixed artifact extension.
pub open spec fn spec_cover_img_path(
    img: Seq<char>,
    app_data_dir: Seq<char>,
    super_parent: Option<Seq<char>>,
    parent: Seq<char>,
    sep: Seq<char>,
) -> Seq<char> {
    let stem2 = spec_file_stem_of_name(spec_file_stem(img));
    let mid = match super_parent {
        Some(sp) => spec_file_name(sp) + sep,
        None => Seq::<char>::empty(),
    };
    app_data_dir + sep + "covers"@ + sep + mid + spec_file_name(parent) + sep + stem2
        + ".cmp.jpg"@
}

/// Builds the artifact path for a cover image.  `parent_paths` carries the
/// folder's own parent path (when it has one) and the folder's path; `sep`
/// is the host's path separator.  A source image, folder, or parent whose
/// path yields no file name is an error naming that path.
pub fn format_cover_img_path(
    img_path: &str,
    app_data_dir: &str,
    parent_paths: (Option<&str>, &str),
    sep: &str,
) -> (r: Result<Option<String>, ReadDirError>)
    ensures
        spec_file_name(img_path@).len() == 0 ==> (r matches Err(ReadDirError::Path(m)) && m@
            == img_path@),
        spec_file_name(img_path@).len() > 0 && spec_file_name(parent_paths.1@).len() == 0 ==> (
        r matches Err(ReadDirError::Path(m)) && m@ == parent_paths.1@),
        spec_file_name(img_path@).len() > 0 && spec_file_name(parent_paths.1@).len() > 0 ==> (
        match parent_paths.0 {
            Some(sp) => if spec_file_name(sp@).len() == 0 {
                r matches Err(ReadDirError::Path(m)) && m@ == sp@
            } else {
                r matches Ok(o) && o matches Some(s) && s@ == spec_cover_img_path(
                    img_path@,
                    app_data_dir@,
                    Some(sp@),
                    parent_paths.1@,
                    sep@,
                )
            },
            None => r matches Ok(o) && o matches Some(s) && s@ == spec_cover_img_path(
                img_path@,
                app_data_dir@,
                None,
                parent_paths.1@,
                sep@,
            ),
        }),
{
    let (super_parent, parent) = parent_paths;
    let img_name = file_name_of(img_path);
    if img_name.as_str().unicode_len() == 0 {
        return Err(ReadDirError::Path(String::from_str(img_path)));
    }
    let stem = file_stem_of(img_path);
    let stem2 = file_stem_of(stem.as_str());
    proof {
        let s = img_path@;
        lemma_after_last_any_bounds(s, '/', '\\');
        lemma_after_last_any_none_after(s, '/', '\\');
        let a = after_last_sep(s);
        let name = spec_file_name(s);
        lemma_after_last_any_bounds(name, '.', '.');
        assert(stem@.len() <= name.len());
        assert forall|k: int| 0 <= k < stem@.len() implies !(stem@[k] == '/' || stem@[k]
            == '\\') by {
            assert(stem@[k] == name[k]);
            assert(name[k] == s[a + k]);
            assert(!(s[a + k] == '/' || s[a + k] == '\\'));
        }
        lemma_after_last_any_suffix(stem@, '/', '\\', 0);
        assert(stem@.subrange(0, 0) =~= Seq::<char>::empty());
        assert(after_last_sep(stem@) == 0);
        assert(spec_file_name(stem@) =~= stem@);
    }
    let parent_title = file_name_of(parent);
    if parent_title.as_str().unicode_len() == 0 {
        return Err(ReadDirError::Path(String::from_str(parent)));
    }
    let mut out = String::from_str(app_data_dir).concat(sep).concat("covers").concat(sep);
    match super_parent {
        Some(sp) => {
            let sp_title = file_name_of(sp);
            if sp_title.as_str().unicode_len() == 0 {
                return Err(ReadDirError::Path(String::from_str(sp)));
            }
            out.append(sp_title.as_str());
            out.append(sep);
        },
        None => {},
    }
    out.append(parent_title.as_str());
    out.append(sep);
    out.append(stem2.as_str());
    out.append(".cmp.jpg");
    Ok(Some(out))
}

/// Whether a folder's cover image can be rewritten to an artifact path:
/// it has one, and every involved path yields a file name.
pub open spec fn spec_rewritable(f: SpecFolder) -> bool {
    match f.cover_img_path {
        Some(img) => spec_file_name(img).len() > 0 && spec_file_name(f.path).len() > 0 && (
        match f.parent_path {
            Some(pp) => spec_file_name(pp).len() > 0,
            None => true,
        }),
        None => false,
    }
}

/// A folder with its raw cover image path rewritten to the artifact path
/// the host will write, when that path can be built.
pub open spec fn spec_rewrite_cover(f: SpecFolder, app: Seq<char>, sep: Seq<char>) -> SpecFolder {
    if spec_rewritable(f) {
        SpecFolder {
            cover_img_path: Some(
                spec_cover_img_path(
                    match f.cover_img_path {
                        Some(img) => img,
                        None => Seq::<char>::empty(),
                    },
                    app,
                    f.parent_path,
                    f.path,
                    sep,
                ),
            ),
            ..f
        }
    } else {
        f
    }
}

/// The source/artifact pair a rewritable folder asks the host to compress.
pub open spec fn spec_cover_pair(f: SpecFolder, app: Seq<char>, sep: Seq<char>) -> (
    Seq<char>,
    Seq<char>,
) {
    (
        match f.cover_img_path {
            Some(img) => img,
            None => Seq::<char>::empty(),
        },
        match spec_rewrite_cover(f, app, sep).cover_img_path {
            Some(c) => c,
            None => Seq::<char>::empty(),
        },
    )
}

/// The images of a string-pair list.
pub open spec fn pair_views(v: Seq<(String, String)>) -> Seq<(Seq<char>, Seq<char>)> {
    v.map_values(|p: (String, String)| (p.0@, p.1@))
}

/// The set of paths of a tree's direct children.
pub open spec fn spec_children_path_set(children: Seq<FsDirTree>) -> Set<Seq<char>> {
    Set::new(
        |p: Seq<char>|
            exists|i: int| 0 <= i < children.len() && (#[trigger] children[i]).path@ == p,
    )
}

/// Everything one synchronization request asks the host to do: whether a
/// re-scan happened at all, the records to remove, the user to write back
/// after a deletion touched the last-read pointer, the records to upsert,
/// and the cover source/artifact pairs to compress.
#[derive(Debug)]
pub struct SyncPlan {
    pub refetched: bool,
    pub delete_folders: Vec<OsFolder>,
    pub delete_panels: Vec<MangaPanel>,
    pub user: Option<User>,
    pub panels: Vec<MangaPanel>,
    pub folders: Vec<OsFolder>,
    pub covers: Vec<(String, String)>,
}

/// The paths of a tree's direct children, in order.
pub fn children_paths(tree: &FsDirTree) -> (r: Vec<String>)
    ensures
        spec_string_set(r@) == spec_children_path_set(tree.children@),
{
    let nc = tree.children.len();
    let mut new_dirs: Vec<String> = Vec::new();
    for i in 0..nc
        invariant
            nc == tree.children@.len(),
            new_dirs@.len() == i,
            forall|k: int| 0 <= k < i ==> (#[trigger] new_dirs@[k])@ == tree.children@[k].path@,
    {
        new_dirs.push(tree.children[i].path.clone());
    }
    proof {
        assert forall|p: Seq<char>| spec_string_set(new_dirs@).contains(p)
            implies spec_children_path_set(tree.children@).contains(p) by {
            let w = choose|w: int| 0 <= w < new_dirs@.len() && (#[trigger] new_dirs@[w])@ == p;
            assert(tree.children@[w].path@ == p);
        }
        assert forall|p: Seq<char>| spec_children_path_set(tree.children@).contains(p)
            implies spec_string_set(new_dirs@).contains(p) by {
            let w = choose|w: int|
                0 <= w < tree.children@.len() && (#[trigger] tree.children@[w]).path@ == p;
            assert(new_dirs@[w]@ == p);
        }
        assert(spec_string_set(new_dirs@) =~= spec_children_path_set(tree.children@));
    }
    new_dirs
}

/// Rewrites every raw cover image path of a folder list to its artifact
/// path, and collects the source/artifact pairs the host must compress.
/// A folder whose artifact path cannot be built keeps its cover unchanged.
pub fn rewrite_covers(folders: &Vec<OsFolder>, app_data_dir: &str, sep: &str) -> (r: (
    Vec<OsFolder>,
    Vec<(String, String)>,
))
    ensures
        r.0@.len() == folders@.len(),
        forall|k: int|
            0 <= k < folders@.len() ==> (#[trigger] r.0@[k])@ == spec_rewrite_cover(
                folder_views(folders@)[k],
                app_data_dir@,
                sep@,
            ),
        pair_views(r.1@) == folder_views(folders@).filter(
            |f: SpecFolder| spec_rewritable(f),
        ).map_values(|f: SpecFolder| spec_cover_pair(f, app_data_dir@, sep@)),
{
    let ghost allv = folder_views(folders@);
    let n_all = folders.len();
    let mut rewritten: Vec<OsFolder> = Vec::new();
    let mut covers: Vec<(String, String)> = Vec::new();
    proof {
        assert(allv.subrange(0, 0) =~= Seq::<SpecFolder>::empty());
        lemma_filter_empty(|f: SpecFolder| spec_rewritable(f));
        assert(pair_views(covers@) =~= allv.subrange(0, 0).filter(
            |f: SpecFolder| spec_rewritable(f),
        ).map_values(|f: SpecFolder| spec_cover_pair(f, app_data_dir@, sep@)));
    }
    for i in 0..n_all
        invariant
            n_all == folders@.len(),
            allv == folder_views(folders@),
            rewritten@.len() == i,
            forall|k: int|
                0 <= k < i ==> (#[trigger] rewritten@[k])@ == spec_rewrite_cover(
                    allv[k],
                    app_data_dir@,
                    sep@,
                ),
            pair_views(covers@) == allv.subrange(0, i as int).filter(
                |f: SpecFolder| spec_rewritable(f),
            ).map_values(|f: SpecFolder| spec_cover_pair(f, app_data_dir@, sep@)),
    {
        proof {
            lemma_filter_step(allv, i as int, |f: SpecFolder| spec_rewritable(f));
        }
        let ghost pre_pairs = pair_views(covers@);
        let f = &folders[i];
        let mut f2 = f.deep_clone();
        match &f.cover_img_path {
            Some(img) => {
                let pp: Option<&str> = match &f.parent_path {
                    Some(s) => Some(s.as_str()),
                    None => None,
                };
                match format_cover_img_path(img.as_str(), app_data_dir, (pp, f.path.as_str()), sep) {
                    Ok(o) => match o {
                        Some(out) => {
                            covers.push((img.clone(), out.clone()));
                            f2.cover_img_path = Some(out);
                            proof {
                                assert(spec_rewritable(allv[i as int]));
                                assert(f2@ == spec_rewrite_cover(
                                    allv[i as int],
                                    app_data_dir@,
                                    sep@,
                                ));
                                assert(pair_views(covers@) =~= pre_pairs.push(
                                    spec_cover_pair(allv[i as int], app_data_dir@, sep@),
                                ));
                            }
                        },
                        None => {},
                    },
                    Err(_) => {
                        proof {
                            assert(!spec_rewritable(allv[i as int]));
                        }
                    },
                }
            },
            None => {
                proof {
                    assert(!spec_rewritable(allv[i as int]));
                }
            },
        }
        rewritten.push(f2);
        proof {
            if !spec_rewritable(allv[i as int]) {
                assert(allv.subrange(0, i + 1).filter(|f: SpecFolder| spec_rewritable(f))
                    .map_values(|f: SpecFolder| spec_cover_pair(f, app_data_dir@, sep@))
                    =~= pre_pairs);
            } else {
                assert(allv.subrange(0, i + 1).filter(|f: SpecFolder| spec_rewritable(f))
                    .map_values(|f: SpecFolder| spec_cover_pair(f, app_data_dir@, sep@))
                    =~= pre_pairs.push(spec_cover_pair(allv[i as int], app_data_dir@, sep@)));
            }
        }
    }
    proof {
        assert(allv.subrange(0, n_all as int) =~= allv);
    }
    (rewritten, covers)
}

/// Synchronizes one library directory end to end, as a plan of record
/// changes for the host to apply.  The snapshot, the stored records, and
/// which stored paths still exist all come in as plain values.  When prior
/// state was supplied and nothing changed, the plan says no re-scan
/// happened and carries no writes at all.  Otherwise records whose paths
/// vanished are deleted first (cascading, clearing the user's last-read
/// pointer when it names a deleted folder), the subtree is re-read within
/// the narrowed stale scope, raw cover paths are rewritten to artifact
/// paths for the host to compress, and the refreshed records are stamped
/// with the new update time.
#[verifier::rlimit(100)]
pub fn upsert_read_os_dir(
    tree: &FsDirTree,
    parent_path: Option<&str>,
    user: User,
    old_dirs: Option<Vec<OsFolder>>,
    old_panels: Option<Vec<MangaPanel>>,
    existing: &Vec<String>,
    stored_folders: &Vec<OsFolder>,
    stored_panels: &Vec<MangaPanel>,
    app_data_dir: &str,
    sep: &str,
    date: &str,
    time: &str,
) -> (r: Result<SyncPlan, MangaShelfError>)
    ensures
        ({
            let prior = old_dirs is Some || old_panels is Some;
            let ex = spec_string_set(existing@);
            let od = match old_dirs {
                Some(v) => v@,
                None => Seq::<OsFolder>::empty(),
            };
            let op = match old_panels {
                Some(v) => v@,
                None => Seq::<MangaPanel>::empty(),
            };
            let ods = spec_path_set(spec_kept_dirs(od, ex));
            let nds = spec_children_path_set(tree.children@);
            let stale_set = spec_stale_panel_set(spec_kept_panels(op, ex), tree.panels@);
            let dd = spec_deleted_dirs(od, ex);
            let dp = spec_deleted_panels(op, ex);
            let unchanged = ods == nds && stale_set == Set::<Seq<char>>::empty() && dd.len() == 0
                && dp.len() == 0;
            let full = !prior || (ods == nds && stale_set == Set::<Seq<char>>::empty());
            let dsc: Option<Set<Seq<char>>> = if full {
                None
            } else {
                Some(
                    if ods == nds {
                        Set::<Seq<char>>::empty()
                    } else {
                        spec_symdiff(ods, nds)
                    },
                )
            };
            let psc: Option<Set<Seq<char>>> = if full {
                None
            } else {
                Some(stale_set)
            };
            let m = spec_sync_tree(
                *tree,
                user.id@,
                date@,
                time@,
                parent_path is Some,
                dsc,
                psc,
            );
            &&& (prior && unchanged) ==> (r matches Ok(p) && p.refetched == false
                && p.delete_folders@.len() == 0 && p.delete_panels@.len() == 0 && p.user is None
                && p.panels@.len() == 0 && p.folders@.len() == 0 && p.covers@.len() == 0)
            &&& !(prior && unchanged) ==> match m {
                Some(g) => (r matches Ok(p) && ({
                    let all = g.1.push(g.0);
                    &&& p.refetched == true
                    &&& prior ==> ({
                        &&& p.delete_folders@ == spec_cascade_folders(dd, stored_folders@)
                        &&& p.delete_panels@ == spec_cascade_panels(dd, stored_panels@) + dp
                        &&& (p.user matches Some(u2) && u2@ == SpecUser {
                            last_read_manga_folder: if spec_lrmf_deleted(
                                user@,
                                spec_cascade_folders(dd, stored_folders@),
                            ) {
                                None
                            } else {
                                user@.last_read_manga_folder
                            },
                            ..user@
                        })
                    })
                    &&& !prior ==> (p.delete_folders@.len() == 0 && p.delete_panels@.len() == 0
                        && p.user is None)
                    &&& p.panels@.len() == g.2.len()
                    &&& forall|i: int|
                        0 <= i < g.2.len() ==> (#[trigger] p.panels@[i])@ == (SpecPanel {
                            update_date: date@,
                            update_time: time@,
                            ..g.2[i]
                        })
                    &&& p.folders@.len() == all.len()
                    &&& forall|i: int|
                        0 <= i < all.len() ==> (#[trigger] p.folders@[i])@ == (SpecFolder {
                            update_date: date@,
                            update_time: time@,
                            ..spec_rewrite_cover(all[i], app_data_dir@, sep@)
                        })
                    &&& pair_views(p.covers@) == all.filter(
                        |f: SpecFolder| spec_rewritable(f),
                    ).map_values(|f: SpecFolder| spec_cover_pair(f, app_data_dir@, sep@))
                })),
                None => r matches Err(MangaShelfError::ReadDir(_)),
            }
        }),
{
    let uid = user.id.clone();
    let new_dirs = children_paths(tree);
    let stale = find_stale_entries(&new_dirs, &tree.panels, &old_dirs, &old_panels, existing);
    let prior = old_dirs.is_some() || old_panels.is_some();
    if prior && stale.is_none() {
        return Ok(
            SyncPlan {
                refetched: false,
                delete_folders: Vec::new(),
                delete_panels: Vec::new(),
                user: None,
                panels: Vec::new(),
                folders: Vec::new(),
                covers: Vec::new(),
            },
        );
    }
    let mut delete_folders: Vec<OsFolder> = Vec::new();
    let mut delete_panels: Vec<MangaPanel> = Vec::new();
    let user_out: Option<User>;
    let narrowed: StaleEntries;
    match stale {
        StaleEntries::Found { dirs, panels, deleted } => {
            match deleted {
                Some(d) => {
                    let (df, dpn) = d;
                    let (cf, cp, u2) = delete_os_folders(
                        &df,
                        stored_folders,
                        stored_panels,
                        Some(user),
                    );
                    delete_folders = cf;
                    delete_panels = cp;
                    append_records(&mut delete_panels, &dpn);
                    user_out = u2;
                },
                None => {
                    user_out = Some(user);
                },
            }
            if dirs.is_none() && panels.is_none() {
                narrowed = StaleEntries::NoChange;
            } else {
                narrowed = StaleEntries::Found { dirs, panels, deleted: None };
            }
        },
        _ => {
            narrowed = StaleEntries::NoPriorState;
            user_out = None;
        },
    }
    let group = match read_os_folder_dir(
        tree,
        uid.as_str(),
        date,
        time,
        parent_path,
        &narrowed,
    ) {
        Ok(g) => g,
        Err(e) => {
            return Err(MangaShelfError::ReadDir(e));
        },
    };
    let (main_folder, cfs0, panels_vec) = group;
    let ghost g0v = main_folder@;
    let ghost g1v = folder_views(cfs0@);
    let ghost g2v = panel_views(panels_vec@);
    let mut cfs = cfs0;
    cfs.push(main_folder);
    proof {
        assert(folder_views(cfs@) =~= g1v.push(g0v));
    }
    let ghost allv = folder_views(cfs@);
    let (rewritten, covers) = rewrite_covers(&cfs, app_data_dir, sep);
    let stamped_panels = update_panels(&panels_vec, None, date, time);
    let (stamped_folders, _user_none) = update_os_folders(&rewritten, None, date, time);
    proof {
        let ex = spec_string_set(existing@);
        let od = match old_dirs {
            Some(v) => v@,
            None => Seq::<OsFolder>::empty(),
        };
        let op = match old_panels {
            Some(v) => v@,
            None => Seq::<MangaPanel>::empty(),
        };
        let ods = spec_path_set(spec_kept_dirs(od, ex));
        let nds = spec_children_path_set(tree.children@);
        let stale_set = spec_stale_panel_set(spec_kept_panels(op, ex), tree.panels@);
        let full = !prior || (ods == nds && stale_set == Set::<Seq<char>>::empty());
        let dsc: Option<Set<Seq<char>>> = if full {
            None
        } else {
            Some(
                if ods == nds {
                    Set::<Seq<char>>::empty()
                } else {
                    spec_symdiff(ods, nds)
                },
            )
        };
        let psc: Option<Set<Seq<char>>> = if full {
            None
        } else {
            Some(stale_set)
        };
        assert(nds == spec_string_set(new_dirs@));
        assert(spec_scope_dirs(narrowed) == dsc);
        assert(spec_scope_panels(narrowed) == psc);
        assert(uid@ == user.id@);
        let m = spec_sync_tree(
            *tree,
            user.id@,
            date@,
            time@,
            parent_path is Some,
            dsc,
            psc,
        );
        assert(m == Some((g0v, g1v, g2v)));
        let all = g1v.push(g0v);
        assert(allv == all);
        assert(stamped_folders@.len() == all.len());
        assert forall|i: int|
            0 <= i < all.len() implies (#[trigger] stamped_folders@[i])@ == (SpecFolder {
            update_date: date@,
            update_time: time@,
            ..spec_rewrite_cover(all[i], app_data_dir@, sep@)
        }) by {
            assert(rewritten@[i]@ == spec_rewrite_cover(allv[i], app_data_dir@, sep@));
        }
        assert forall|i: int|
            0 <= i < g2v.len() implies (#[trigger] stamped_panels@[i])@ == (SpecPanel {
            update_date: date@,
            update_time: time@,
            ..g2v[i]
        }) by {
            assert(g2v[i] == panels_vec@[i]@);
        }
    }
    Ok(
        SyncPlan {
            refetched: true,
            delete_folders,
            delete_panels,
            user: user_out,
            panels: stamped_panels,
            folders: stamped_folders,
            covers,
        },
    )
}

/// Idempotence law: a second synchronization over an unchanged disk finds
/// nothing to do.  When the stored folder records carry exactly the child
/// paths of the directory, the stored panel records are the ones the
/// previous scan wrote for it, and every stored path still exists on
/// disk, the staleness check reports no deleted record, no directory
/// difference, and no stale panel — exactly the state in which
/// [`upsert_read_os_dir`] plans no work and reports that no re-scan
/// happened.  This holds provided every sighted panel was readable and
/// named and no two sightings share a path; an unreadable file, or a
/// sub-directory whose own scan fails, legitimately forces a re-scan
/// every time.
pub proof fn lemma_sync_idempotent(
    tree: FsDirTree,
    user_id: Seq<char>,
    date: Seq<char>,
    time: Seq<char>,
    old_dirs: Seq<OsFolder>,
    old_panels: Seq<MangaPanel>,
    ex: Set<Seq<char>>,
)
    requires
        tree.panels@.len() <= usize::MAX,
        forall|i: int|
            0 <= i < tree.panels@.len() ==> (#[trigger] tree.panels@[i]).metadata is Some,
        forall|i: int|
            0 <= i < tree.panels@.len() ==> spec_file_name(
                (#[trigger] tree.panels@[i]).path@,
            ).len() > 0,
        forall|i: int, j: int|
            0 <= i < j < tree.panels@.len() ==> (#[trigger] tree.panels@[i]).path@ != (
            #[trigger] tree.panels@[j]).path@,
        spec_path_set(old_dirs) == spec_children_path_set(tree.children@),
        panel_views(old_panels) == spec_sort_panels_v(
            spec_own_panels_raw(tree.panels@, None, user_id, tree.path@, date, time),
        ),
        forall|i: int| 0 <= i < old_dirs.len() ==> ex.contains((#[trigger] old_dirs[i]).path@),
        forall|i: int|
            0 <= i < old_panels.len() ==> ex.contains((#[trigger] old_panels[i]).path@),
    ensures
        spec_deleted_dirs(old_dirs, ex).len() == 0,
        spec_deleted_panels(old_panels, ex).len() == 0,
        spec_kept_dirs(old_dirs, ex) == old_dirs,
        spec_kept_panels(old_panels, ex) == old_panels,
        spec_path_set(spec_kept_dirs(old_dirs, ex)) == spec_children_path_set(tree.children@),
        spec_stale_panel_set(spec_kept_panels(old_panels, ex), tree.panels@) == Set::<
            Seq<char>,
        >::empty(),
{
    lemma_filter_all(old_dirs, |f: OsFolder| ex.contains(f.path@));
    lemma_filter_none(old_dirs, |f: OsFolder| !ex.contains(f.path@));
    lemma_filter_all(old_panels, |p: MangaPanel| ex.contains(p.path@));
    lemma_filter_none(old_panels, |p: MangaPanel| !ex.contains(p.path@));
    let sightings = tree.panels@;
    let pred = |p: PanelSighting|
        spec_in_scope(p.path@, None) && spec_file_name(p.path@).len() > 0;
    let f = |p: PanelSighting| spec_panel_of_sighting(p, user_id, tree.path@, date, time);
    lemma_filter_all(sightings, pred);
    let raw = spec_own_panels_raw(sightings, None, user_id, tree.path@, date, time);
    assert(raw == sightings.map_values(f));
    let keys = spec_panel_keys_v(raw);
    lemma_stable_order_props(keys);
    let ord = spec_stable_order(keys);
    let own = panel_views(old_panels);
    assert(own == spec_sort_by_order(raw, ord));
    assert(own.len() == sightings.len());
    assert(old_panels.len() == sightings.len());
    assert forall|w: int| 0 <= w < own.len() implies (#[trigger] old_panels[w]).path@
        == sightings[ord[w] as int].path@ && old_panels[w].metadata
        == sightings[ord[w] as int].metadata by {
        assert(own[w] == raw[ord[w] as int]);
        assert(raw[ord[w] as int] == f(sightings[ord[w] as int]));
        assert(old_panels[w]@ == own[w]);
    }
    let kept = spec_kept_panels(old_panels, ex);
    assert(kept == old_panels);
    let stale = spec_stale_panel_set(kept, sightings);
    assert forall|q: Seq<char>| !stale.contains(q) by {
        if stale.contains(q) {
            if exists|i: int|
                0 <= i < sightings.len() && (#[trigger] sightings[i]).path@ == q
                    && spec_sighting_stale(old_panels, sightings[i]) {
                let j = choose|j: int|
                    0 <= j < sightings.len() && (#[trigger] sightings[j]).path@ == q
                        && spec_sighting_stale(old_panels, sightings[j]);
                assert(ord.contains(#[trigger] (j as usize)));
                let w = choose|w: int| 0 <= w < ord.len() && ord[w] == j as usize;
                assert(old_panels[w].path@ == q);
                lemma_last_panel_index(old_panels, q);
                let li = spec_last_panel_index(old_panels, q);
                assert(li >= 0);
                assert(old_panels[li].path@ == q);
                assert(old_panels[li].metadata == sightings[ord[li] as int].metadata);
                assert(sightings[ord[li] as int].path@ == q);
                if ord[li] as int != j {
                    let a = ord[li] as int;
                    if a < j {
                        assert(sightings[a].path@ != sightings[j].path@);
                    } else {
                        assert(sightings[j].path@ != sightings[a].path@);
                    }
                }
                assert(ord[li] as int == j);
                assert(old_panels[li].metadata == sightings[j].metadata);
                assert(sightings[j].metadata is Some);
                assert(!MangaPanel::spec_is_stale(
                    old_panels[li].metadata,
                    sightings[j].metadata,
                ));
                assert(!spec_sighting_stale(old_panels, sightings[j]));
            } else {
                let k = choose|k: int|
                    0 <= k < old_panels.len() && (#[trigger] old_panels[k]).spec_path() == q;
                assert(old_panels[k].path@ == q);
                assert(sightings[ord[k] as int].path@ == q);
                assert(spec_sighting_set(sightings).contains(q));
            }
        }
    }
    assert(stale =~= Set::<Seq<char>>::empty());
}

} // verus!
