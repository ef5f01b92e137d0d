//! The persisted records of the library and the operations on them.
//!
//! A `User` owns `OsFolder` records (one per directory of the library) and
//! `MangaPanel` records (one per image file).  The host keeps these records
//! in an embedded store; every function here works on record values the
//! host has already fetched, and returns the records it must write back or
//! remove, so the decisions themselves are verified.

use crate::error::DatabaseError;
use crate::error::ReadDirError;
use crate::error::SortTypeError;
use crate::heuristic::episode_number;
use crate::heuristic::order_key;
use crate::order::apply_order;
use crate::order::datetime_of;
use crate::order::lemma_stable_order_props;
use crate::order::spec_datetime;
use crate::order::spec_pack_datetime;
use crate::order::spec_stable_order;
use crate::order::stable_order;
use crate::order::try_datetime_of;
use crate::order::spec_try_datetime;
use crate::order::DateTimeVal;
use crate::order::DeepClone;
use crate::text::file_name_of;
use crate::text::spec_file_name;
use crate::text::str_eq;
use crate::text::path_is_under;
use crate::text::spec_is_path_under;
use vstd::prelude::*;

verus! {

/// On-disk metadata of one file; times are seconds since the epoch.
#[derive(Clone, Copy, Debug, PartialEq, Eq)]
pub struct FileMetadata {
    pub created: Option<u64>,
    pub modified: Option<u64>,
    pub accessed: Option<u64>,
    pub size: Option<u64>,
}

/// How many entries a directory holds directly.
#[derive(Clone, Copy, Debug, PartialEq, Eq)]
pub struct FolderContains {
    pub files: usize,
    pub folders: usize,
}

/// Aggregate metadata of one directory.
#[derive(Clone, Copy, Debug, PartialEq, Eq)]
pub struct FolderMetadata {
    pub contains: FolderContains,
    pub size: Option<u64>,
}

impl FolderMetadata {
    /// What the folder metadata is, given the directory entry's own size as
    /// the host read it (`None` when the read failed) and the entry counts.
    pub open spec fn spec_from_parts(
        size: Option<u64>,
        files: usize,
        folders: usize,
    ) -> Option<FolderMetadata> {
        match size {
            Some(s) => Some(
                FolderMetadata {
                    contains: FolderContains { files, folders },
                    size: Some(s),
                },
            ),
            None => None,
        }
    }

    /// Builds folder metadata from plain parts.
    pub fn from_parts(size: Option<u64>, files: usize, folders: usize) -> (r: Option<
        FolderMetadata,
    >)
        ensures
            r == FolderMetadata::spec_from_parts(size, files, folders),
    {
        match size {
            Some(s) => Some(
                FolderMetadata { contains: FolderContains { files, folders }, size: Some(s) },
            ),
            None => None,
        }
    }
}

/// Per-user settings carried through synchronization untouched.
#[derive(Clone, Debug)]
pub struct Settings {
    pub user_id: String,
    pub mpv_path: Option<String>,
    pub plugins_path: Option<String>,
    pub autoplay: bool,
    pub update_date: String,
    pub update_time: String,
}

/// One directory of the library.
#[derive(Clone, Debug)]
pub struct OsFolder {
    pub user_id: String,
    pub path: String,
    pub title: String,
    pub parent_path: Option<String>,
    pub last_read_panel: Option<MangaPanel>,
    pub cover_img_path: Option<String>,
    pub metadata: Option<FolderMetadata>,
    pub is_manga_folder: bool,
    pub is_double_panels: bool,
    pub is_read: bool,
    pub zoom: usize,
    pub is_hidden: bool,
    pub update_date: String,
    pub update_time: String,
}

/// One image file of the library.
#[derive(Clone, Debug)]
pub struct MangaPanel {
    pub user_id: String,
    pub path: String,
    pub title: String,
    pub parent_path: String,
    pub metadata: Option<FileMetadata>,
    pub is_read: bool,
    pub update_date: String,
    pub update_time: String,
}

/// A library user.
#[derive(Clone, Debug)]
pub struct User {
    pub id: String,
    pub username: String,
    pub settings: Settings,
    pub last_read_manga_folder: Option<OsFolder>,
}

/// Mathematical image of `Settings`.
pub ghost struct SpecSettings {
    pub user_id: Seq<char>,
    pub mpv_path: Option<Seq<char>>,
    pub plugins_path: Option<Seq<char>>,
    pub autoplay: bool,
    pub update_date: Seq<char>,
    pub update_time: Seq<char>,
}

/// Mathematical image of `OsFolder`.
pub ghost struct SpecFolder {
    pub user_id: Seq<char>,
    pub path: Seq<char>,
    pub title: Seq<char>,
    pub parent_path: Option<Seq<char>>,
    pub last_read_panel: Option<SpecPanel>,
    pub cover_img_path: Option<Seq<char>>,
    pub metadata: Option<FolderMetadata>,
    pub is_manga_folder: bool,
    pub is_double_panels: bool,
    pub is_read: bool,
    pub zoom: usize,
    pub is_hidden: bool,
    pub update_date: Seq<char>,
    pub update_time: Seq<char>,
}

/// Mathematical image of `MangaPanel`.
pub ghost struct SpecPanel {
    pub user_id: Seq<char>,
    pub path: Seq<char>,
    pub title: Seq<char>,
    pub parent_path: Seq<char>,
    pub metadata: Option<FileMetadata>,
    pub is_read: bool,
    pub update_date: Seq<char>,
    pub update_time: Seq<char>,
}

/// Mathematical image of `User`.
pub ghost struct SpecUser {
    pub id: Seq<char>,
    pub username: Seq<char>,
    pub settings: SpecSettings,
    pub last_read_manga_folder: Option<SpecFolder>,
}

/// The image of an optional string.
pub open spec fn view_opt_str(o: Option<String>) -> Option<Seq<char>> {
    match o {
        Some(s) => Some(s@),
        None => None,
    }
}

impl View for Settings {
    type V = SpecSettings;

    open spec fn view(&self) -> SpecSettings {
        SpecSettings {
            user_id: self.user_id@,
            mpv_path: view_opt_str(self.mpv_path),
            plugins_path: view_opt_str(self.plugins_path),
            autoplay: self.autoplay,
            update_date: self.update_date@,
            update_time: self.update_time@,
        }
    }
}

impl View for MangaPanel {
    type V = SpecPanel;

    open spec fn view(&self) -> SpecPanel {
        SpecPanel {
            user_id: self.user_id@,
            path: self.path@,
            title: self.title@,
            parent_path: self.parent_path@,
            metadata: self.metadata,
            is_read: self.is_read,
            update_date: self.update_date@,
            update_time: self.update_time@,
        }
    }
}

impl View for OsFolder {
    type V = SpecFolder;

    open spec fn view(&self) -> SpecFolder {
        SpecFolder {
            user_id: self.user_id@,
            path: self.path@,
            title: self.title@,
            parent_path: view_opt_str(self.parent_path),
            last_read_panel: match self.last_read_panel {
                Some(p) => Some(p@),
                None => None,
            },
            cover_img_path: view_opt_str(self.cover_img_path),
            metadata: self.metadata,
            is_manga_folder: self.is_manga_folder,
            is_double_panels: self.is_double_panels,
            is_read: self.is_read,
            zoom: self.zoom,
            is_hidden: self.is_hidden,
            update_date: self.update_date@,
            update_time: self.update_time@,
        }
    }
}

impl View for User {
    type V = SpecUser;

    open spec fn view(&self) -> SpecUser {
        SpecUser {
            id: self.id@,
            username: self.username@,
            settings: self.settings@,
            last_read_manga_folder: match self.last_read_manga_folder {
                Some(f) => Some(f@),
                None => None,
            },
        }
    }
}

/// Clones an optional string, keeping the value.
fn clone_opt_string(o: &Option<String>) -> (r: Option<String>)
    ensures
        r == *o,
{
    match o {
        Some(s) => Some(s.clone()),
        None => None,
    }
}

impl DeepClone for Settings {
    fn deep_clone(&self) -> (r: Self)
        ensures
            r == *self,
    {
        Settings {
            user_id: self.user_id.clone(),
            mpv_path: clone_opt_string(&self.mpv_path),
            plugins_path: clone_opt_string(&self.plugins_path),
            autoplay: self.autoplay,
            update_date: self.update_date.clone(),
            update_time: self.update_time.clone(),
        }
    }
}

impl DeepClone for MangaPanel {
    fn deep_clone(&self) -> (r: Self)
        ensures
            r == *self,
    {
        MangaPanel {
            user_id: self.user_id.clone(),
            path: self.path.clone(),
            title: self.title.clone(),
            parent_path: self.parent_path.clone(),
            metadata: self.metadata,
            is_read: self.is_read,
            update_date: self.update_date.clone(),
            update_time: self.update_time.clone(),
        }
    }
}

impl DeepClone for OsFolder {
    fn deep_clone(&self) -> (r: Self)
        ensures
            r == *self,
    {
        OsFolder {
            user_id: self.user_id.clone(),
            path: self.path.clone(),
            title: self.title.clone(),
            parent_path: clone_opt_string(&self.parent_path),
            last_read_panel: match &self.last_read_panel {
                Some(p) => Some(p.deep_clone()),
                None => None,
            },
            cover_img_path: clone_opt_string(&self.cover_img_path),
            metadata: self.metadata,
            is_manga_folder: self.is_manga_folder,
            is_double_panels: self.is_double_panels,
            is_read: self.is_read,
            zoom: self.zoom,
            is_hidden: self.is_hidden,
            update_date: self.update_date.clone(),
            update_time: self.update_time.clone(),
        }
    }
}

impl DeepClone for User {
    fn deep_clone(&self) -> (r: Self)
        ensures
            r == *self,
    {
        User {
            id: self.id.clone(),
            username: self.username.clone(),
            settings: self.settings.deep_clone(),
            last_read_manga_folder: match &self.last_read_manga_folder {
                Some(f) => Some(f.deep_clone()),
                None => None,
            },
        }
    }
}

/// A record that names a filesystem path.
pub trait HasPath {
    spec fn spec_path(&self) -> Seq<char>;

    fn path(&self) -> (r: &str)
        ensures
            r@ == self.spec_path(),
    ;
}

/// A record that carries a display title.
pub trait HasTitle {
    spec fn spec_title(&self) -> Seq<char>;

    fn title(&self) -> (r: &str)
        ensures
            r@ == self.spec_title(),
    ;
}

/// A record that carries an update timestamp.
pub trait HasDatetime {
    spec fn spec_date(&self) -> Seq<char>;

    spec fn spec_time(&self) -> Seq<char>;

    fn date(&self) -> (r: &str)
        ensures
            r@ == self.spec_date(),
    ;

    fn time(&self) -> (r: &str)
        ensures
            r@ == self.spec_time(),
    ;
}

impl HasPath for OsFolder {
    open spec fn spec_path(&self) -> Seq<char> {
        self.path@
    }

    fn path(&self) -> (r: &str)
        ensures
            r@ == self.spec_path(),
    {
        self.path.as_str()
    }
}

impl HasPath for MangaPanel {
    open spec fn spec_path(&self) -> Seq<char> {
        self.path@
    }

    fn path(&self) -> (r: &str)
        ensures
            r@ == self.spec_path(),
    {
        self.path.as_str()
    }
}

impl HasTitle for OsFolder {
    open spec fn spec_title(&self) -> Seq<char> {
        self.title@
    }

    fn title(&self) -> (r: &str)
        ensures
            r@ == self.spec_title(),
    {
        self.title.as_str()
    }
}

impl HasTitle for MangaPanel {
    open spec fn spec_title(&self) -> Seq<char> {
        self.title@
    }

    fn title(&self) -> (r: &str)
        ensures
            r@ == self.spec_title(),
    {
        self.title.as_str()
    }
}

impl HasDatetime for OsFolder {
    open spec fn spec_date(&self) -> Seq<char> {
        self.update_date@
    }

    open spec fn spec_time(&self) -> Seq<char> {
        self.update_time@
    }

    fn date(&self) -> (r: &str)
        ensures
            r@ == self.spec_date(),
    {
        self.update_date.as_str()
    }

    fn time(&self) -> (r: &str)
        ensures
            r@ == self.spec_time(),
    {
        self.update_time.as_str()
    }
}

impl HasDatetime for MangaPanel {
    open spec fn spec_date(&self) -> Seq<char> {
        self.update_date@
    }

    open spec fn spec_time(&self) -> Seq<char> {
        self.update_time@
    }

    fn date(&self) -> (r: &str)
        ensures
            r@ == self.spec_date(),
    {
        self.update_date.as_str()
    }

    fn time(&self) -> (r: &str)
        ensures
            r@ == self.spec_time(),
    {
        self.update_time.as_str()
    }
}

/// The update timestamp of a record, as far as its strings parse.
pub fn get_naive_datetime<T: HasDatetime>(x: &T) -> (r: Option<DateTimeVal>)
    ensures
        r == spec_try_datetime(x.spec_date(), x.spec_time()),
{
    try_datetime_of(x.date(), x.time())
}

/// Whether two optional numbers differ.
fn opt_u64_ne(a: Option<u64>, b: Option<u64>) -> (r: bool)
    ensures
        r == (a != b),
{
    match (a, b) {
        (Some(x), Some(y)) => x != y,
        (Some(_), None) => true,
        (None, Some(_)) => true,
        (None, None) => false,
    }
}

impl MangaPanel {
    /// Builds the record of one panel file.  The title is the file name;
    /// a path without one is rejected.  The host hands in the file's
    /// current metadata, or `None` when it could not be read.
    pub fn new(
        user_id: String,
        parent_path: String,
        path: String,
        metadata: Option<FileMetadata>,
        update_date: String,
        update_time: String,
    ) -> (r: Result<MangaPanel, ReadDirError>)
        ensures
            spec_file_name(path@).len() == 0 ==> r matches Err(ReadDirError::IoError(_)),
            spec_file_name(path@).len() > 0 ==> (r matches Ok(p) && p@ == SpecPanel {
                user_id: user_id@,
                path: path@,
                title: spec_file_name(path@),
                parent_path: parent_path@,
                metadata: metadata,
                is_read: false,
                update_date: update_date@,
                update_time: update_time@,
            }),
    {
        let title = file_name_of(path.as_str());
        if title.as_str().unicode_len() == 0 {
            let msg = String::from_str("'").concat(path.as_str()).concat(
                "' contained no file name to use as the panel title.",
            );
            return Err(ReadDirError::IoError(msg));
        }
        Ok(
            MangaPanel {
                user_id,
                parent_path,
                path,
                title,
                metadata,
                is_read: false,
                update_date,
                update_time,
            },
        )
    }

    /// Whether the stored metadata no longer describes the file: never
    /// recorded, unreadable now, or a different size or modify time on
    /// disk.
    pub open spec fn spec_is_stale(
        stored: Option<FileMetadata>,
        current: Option<FileMetadata>,
    ) -> bool {
        match stored {
            None => true,
            Some(st) => match current {
                None => true,
                Some(c) => st.size != c.size || st.modified != c.modified,
            },
        }
    }

    /// Compares the record's metadata against the file's current metadata,
    /// handed in by the host.
    pub fn is_stale_metadata(&self, current: &Option<FileMetadata>) -> (r: bool)
        ensures
            r == MangaPanel::spec_is_stale(self.metadata, *current),
    {
        match &self.metadata {
            None => true,
            Some(st) => match current {
                None => true,
                Some(c) => opt_u64_ne(st.size, c.size) || opt_u64_ne(st.modified, c.modified),
            },
        }
    }

    /// Replaces the stored metadata with a fresh snapshot, when one could
    /// be read.
    pub fn _update_metadata(&mut self, current: Option<FileMetadata>)
        ensures
            current is Some ==> final(self)@ == (SpecPanel { metadata: current, ..old(self)@ }),
            current is None ==> final(self)@ == old(self)@,
    {
        if current.is_some() {
            self.metadata = current;
        }
    }
}

/// Clones every record of a list.
pub fn clone_records<T: DeepClone>(v: &Vec<T>) -> (r: Vec<T>)
    ensures
        r@ == v@,
{
    let n = v.len();
    let mut r: Vec<T> = Vec::new();
    for i in 0..n
        invariant
            n == v@.len(),
            r@.len() == i,
            forall|k: int| 0 <= k < i ==> r@[k] == v@[k],
    {
        r.push(v[i].deep_clone());
    }
    proof {
        assert(r@ =~= v@);
    }
    r
}

/// Appends clones of every record of `src` to `dst`.
pub fn append_records<T: DeepClone>(dst: &mut Vec<T>, src: &Vec<T>)
    ensures
        final(dst)@ == old(dst)@ + src@,
{
    proof {
        assert(dst@ =~= dst@ + src@.subrange(0, 0));
    }
    let n = src.len();
    for i in 0..n
        invariant
            n == src@.len(),
            dst@ == old(dst)@ + src@.subrange(0, i as int),
    {
        dst.push(src[i].deep_clone());
        proof {
            assert(dst@ =~= old(dst)@ + src@.subrange(0, i + 1));
        }
    }
    proof {
        assert(src@.subrange(0, n as int) =~= src@);
        assert(dst@ =~= old(dst)@ + src@);
    }
}

/// One step of building a filtered list left to right.
pub proof fn lemma_filter_step<A>(s: Seq<A>, i: int, pred: spec_fn(A) -> bool)
    requires
        0 <= i < s.len(),
    ensures
        s.subrange(0, i + 1).filter(pred) == if pred(s[i]) {
            s.subrange(0, i).filter(pred).push(s[i])
        } else {
            s.subrange(0, i).filter(pred)
        },
{
    reveal(Seq::filter);
    let t = s.subrange(0, i + 1);
    assert(t.drop_last() =~= s.subrange(0, i));
    assert(t.last() == s[i]);
}

/// An empty list filters to an empty list.
pub proof fn lemma_filter_empty<A>(pred: spec_fn(A) -> bool)
    ensures
        Seq::<A>::empty().filter(pred) == Seq::<A>::empty(),
{
    reveal(Seq::filter);
}

/// A root folder of one user: no parent, owned by the user.
pub open spec fn spec_is_root_of(user_id: Seq<char>) -> spec_fn(OsFolder) -> bool {
    |f: OsFolder| f.parent_path is None && f.user_id@ == user_id
}

pub open spec fn spec_root_folders(s: Seq<OsFolder>, user_id: Seq<char>) -> Seq<OsFolder> {
    s.filter(spec_is_root_of(user_id))
}

/// A folder whose parent is exactly the given path.
pub open spec fn spec_is_child_of(parent: Seq<char>) -> spec_fn(OsFolder) -> bool {
    |f: OsFolder|
        match f.parent_path {
            Some(pp) => pp@ == parent,
            None => false,
        }
}

pub open spec fn spec_child_folders(s: Seq<OsFolder>, parent: Seq<char>) -> Seq<OsFolder> {
    s.filter(spec_is_child_of(parent))
}

/// A panel that lies directly in the given folder.
pub open spec fn spec_is_panel_of(parent: Seq<char>) -> spec_fn(MangaPanel) -> bool {
    |p: MangaPanel| p.parent_path@ == parent
}

pub open spec fn spec_panels_of(s: Seq<MangaPanel>, parent: Seq<char>) -> Seq<MangaPanel> {
    s.filter(spec_is_panel_of(parent))
}

fn root_folders(folders: &Vec<OsFolder>, user_id: &str) -> (r: Vec<OsFolder>)
    ensures
        r@ == spec_root_folders(folders@, user_id@),
{
    let n = folders.len();
    let mut r: Vec<OsFolder> = Vec::new();
    proof {
        assert(folders@.subrange(0, 0) =~= Seq::<OsFolder>::empty());
        lemma_filter_empty(spec_is_root_of(user_id@));
    }
    for i in 0..n
        invariant
            n == folders@.len(),
            r@ == folders@.subrange(0, i as int).filter(spec_is_root_of(user_id@)),
    {
        proof {
            lemma_filter_step(folders@, i as int, spec_is_root_of(user_id@));
        }
        let f = &folders[i];
        if f.parent_path.is_none() && str_eq(f.user_id.as_str(), user_id) {
            r.push(f.deep_clone());
        }
    }
    proof {
        assert(folders@.subrange(0, n as int) =~= folders@);
    }
    r
}

fn child_folders(folders: &Vec<OsFolder>, parent: &str) -> (r: Vec<OsFolder>)
    ensures
        r@ == spec_child_folders(folders@, parent@),
{
    let n = folders.len();
    let mut r: Vec<OsFolder> = Vec::new();
    proof {
        assert(folders@.subrange(0, 0) =~= Seq::<OsFolder>::empty());
        lemma_filter_empty(spec_is_child_of(parent@));
    }
    for i in 0..n
        invariant
            n == folders@.len(),
            r@ == folders@.subrange(0, i as int).filter(spec_is_child_of(parent@)),
    {
        proof {
            lemma_filter_step(folders@, i as int, spec_is_child_of(parent@));
        }
        let f = &folders[i];
        let keep = match &f.parent_path {
            Some(pp) => str_eq(pp.as_str(), parent),
            None => false,
        };
        if keep {
            r.push(f.deep_clone());
        }
    }
    proof {
        assert(folders@.subrange(0, n as int) =~= folders@);
    }
    r
}

fn panels_of(panels: &Vec<MangaPanel>, parent: &str) -> (r: Vec<MangaPanel>)
    ensures
        r@ == spec_panels_of(panels@, parent@),
{
    let n = panels.len();
    let mut r: Vec<MangaPanel> = Vec::new();
    proof {
        assert(panels@.subrange(0, 0) =~= Seq::<MangaPanel>::empty());
        lemma_filter_empty(spec_is_panel_of(parent@));
    }
    for i in 0..n
        invariant
            n == panels@.len(),
            r@ == panels@.subrange(0, i as int).filter(spec_is_panel_of(parent@)),
    {
        proof {
            lemma_filter_step(panels@, i as int, spec_is_panel_of(parent@));
        }
        let p = &panels[i];
        if str_eq(p.parent_path.as_str(), parent) {
            r.push(p.deep_clone());
        }
    }
    proof {
        assert(panels@.subrange(0, n as int) =~= panels@);
    }
    r
}

/// The ways a record list can be ordered.
#[derive(Debug, Clone)]
pub enum SortType {
    Unsorted,
    EpisodeTitleRegex,
    Updated,
}

/// The chapter-order key of a title, as a sort key.
pub open spec fn spec_episode_key(title: Seq<char>) -> u64 {
    order_key(title) as u64
}

/// The update-time sort key: later timestamps order first.
pub open spec fn spec_updated_key(date: Seq<char>, time: Seq<char>) -> u64 {
    (u64::MAX - spec_pack_datetime(spec_datetime(date, time))) as u64
}

pub open spec fn spec_episode_keys<T: HasTitle>(s: Seq<T>) -> Seq<u64> {
    Seq::new(s.len(), |i: int| spec_episode_key(s[i].spec_title()))
}

pub open spec fn spec_updated_keys<T: HasDatetime>(s: Seq<T>) -> Seq<u64> {
    Seq::new(s.len(), |i: int| spec_updated_key(s[i].spec_date(), s[i].spec_time()))
}

/// A record list rebuilt in the given order.
pub open spec fn spec_sort_by_order<T>(s: Seq<T>, ord: Seq<usize>) -> Seq<T> {
    Seq::new(ord.len(), |i: int| s[ord[i] as int])
}

/// Records stably sorted by the chapter-order heuristic.
pub open spec fn spec_sort_episode<T: HasTitle>(s: Seq<T>) -> Seq<T> {
    spec_sort_by_order(s, spec_stable_order(spec_episode_keys(s)))
}

/// Records stably sorted by update time, most recent first.
pub open spec fn spec_sort_updated<T: HasDatetime>(s: Seq<T>) -> Seq<T> {
    spec_sort_by_order(s, spec_stable_order(spec_updated_keys(s)))
}

/// What each sort type does to a record list.
pub open spec fn spec_sorted_records<T: HasTitle + HasDatetime>(st: SortType, s: Seq<T>) -> Seq<
    T,
> {
    match st {
        SortType::Unsorted => s,
        SortType::EpisodeTitleRegex => spec_sort_episode(s),
        SortType::Updated => spec_sort_updated(s),
    }
}

/// Sorts records stably by the chapter-order heuristic.
pub fn sort_episode<T: HasTitle + DeepClone>(v: &Vec<T>) -> (r: Vec<T>)
    ensures
        r@ == spec_sort_episode(v@),
        r@.len() == v@.len(),
{
    let n = v.len();
    let mut keys: Vec<u64> = Vec::new();
    for i in 0..n
        invariant
            n == v@.len(),
            keys@.len() == i,
            forall|k: int| 0 <= k < i ==> keys@[k] == spec_episode_key(v@[k].spec_title()),
    {
        let k = episode_number(v[i].title());
        keys.push(k as u64);
    }
    proof {
        assert(keys@ =~= spec_episode_keys(v@));
        lemma_stable_order_props(keys@);
    }
    let ord = stable_order(&keys);
    let r = apply_order(v, &ord);
    proof {
        assert(r@ =~= spec_sort_episode(v@));
    }
    r
}

/// Sorts records stably by update time, most recent first.
pub fn sort_updated<T: HasDatetime + DeepClone>(v: &Vec<T>) -> (r: Vec<T>)
    ensures
        r@ == spec_sort_updated(v@),
        r@.len() == v@.len(),
{
    let n = v.len();
    let mut keys: Vec<u64> = Vec::new();
    for i in 0..n
        invariant
            n == v@.len(),
            keys@.len() == i,
            forall|k: int|
                0 <= k < i ==> keys@[k] == spec_updated_key(v@[k].spec_date(), v@[k].spec_time()),
    {
        let dt = datetime_of(v[i].date(), v[i].time());
        let packed: u64 = ((((dt.year as u64) * 13 + (dt.month as u64)) * 32 + (dt.day as u64))
            * 24 + (dt.hour as u64)) * 60 + (dt.minute as u64);
        keys.push(u64::MAX - packed);
    }
    proof {
        assert(keys@ =~= spec_updated_keys(v@));
        lemma_stable_order_props(keys@);
    }
    let ord = stable_order(&keys);
    let r = apply_order(v, &ord);
    proof {
        assert(r@ =~= spec_sort_updated(v@));
    }
    r
}

impl SortType {
    /// Sorts a record list the way this sort type orders it: by the
    /// chapter-order heuristic, by update time, or not at all.
    pub fn sort<T: HasTitle + HasDatetime + DeepClone>(&self, v: &Vec<T>) -> (r: Vec<T>)
        ensures
            r@ == spec_sorted_records(*self, v@),
            r@.len() == v@.len(),
    {
        match self {
            SortType::Unsorted => clone_records(v),
            SortType::EpisodeTitleRegex => sort_episode(v),
            SortType::Updated => sort_updated(v),
        }
    }

    /// The sort type a valid name stands for.
    pub open spec fn spec_of_name(s: Seq<char>) -> SortType {
        if s == "none"@ {
            SortType::Unsorted
        } else if s == "episode_title_regex"@ {
            SortType::EpisodeTitleRegex
        } else {
            SortType::Updated
        }
    }

    /// Whether a name denotes a sort type.
    pub open spec fn spec_valid_name(s: Seq<char>) -> bool {
        s == "none"@ || s == "episode_title_regex"@ || s == "updated"@
    }

    /// Reads a sort type from its name.
    pub fn from_str(s: &str) -> (r: Result<SortType, SortTypeError>)
        ensures
            SortType::spec_valid_name(s@) ==> r == Ok::<SortType, SortTypeError>(
                SortType::spec_of_name(s@),
            ),
            !SortType::spec_valid_name(s@) ==> (r matches Err(SortTypeError::FromStr(m)) && m@
                == s@),
    {
        if str_eq(s, "none") {
            Ok(SortType::Unsorted)
        } else if str_eq(s, "episode_title_regex") {
            Ok(SortType::EpisodeTitleRegex)
        } else if str_eq(s, "updated") {
            Ok(SortType::Updated)
        } else {
            Err(SortTypeError::FromStr(String::from_str(s)))
        }
    }
}

/// The root folders of a user, sorted as asked.  The host hands in the
/// user's stored folder records; an unknown sort name or an empty result is
/// an error, exactly as stated.
pub fn get_os_folders(folders: &Vec<OsFolder>, user_id: &str, sort_type: &str) -> (r: Result<
    Vec<OsFolder>,
    DatabaseError,
>)
    ensures
        !SortType::spec_valid_name(sort_type@) ==> (r matches Err(DatabaseError::SortType(
            SortTypeError::FromStr(m),
        )) && m@ == sort_type@),
        SortType::spec_valid_name(sort_type@) && spec_root_folders(folders@, user_id@).len() == 0
            ==> r matches Err(DatabaseError::OsFoldersNotFound(_)),
        SortType::spec_valid_name(sort_type@) && spec_root_folders(folders@, user_id@).len() > 0
            ==> (r matches Ok(v) && v@ == spec_sorted_records(
            SortType::spec_of_name(sort_type@),
            spec_root_folders(folders@, user_id@),
        )),
{
    let kept = root_folders(folders, user_id);
    let st = match SortType::from_str(sort_type) {
        Ok(st) => st,
        Err(e) => {
            return Err(DatabaseError::SortType(e));
        },
    };
    if kept.len() == 0 {
        let msg = String::from_str("0 OsFolders found belonging to user_id: ").concat(user_id);
        return Err(DatabaseError::OsFoldersNotFound(msg));
    }
    Ok(st.sort(&kept))
}

/// The folder stored under a path, or a not-found error naming the path.
pub fn get_os_folder_by_path(found: Option<OsFolder>, folder_path: &str) -> (r: Result<
    OsFolder,
    DatabaseError,
>)
    ensures
        found matches Some(f) ==> r == Ok::<OsFolder, DatabaseError>(f),
        found is None ==> r matches Err(DatabaseError::OsFoldersNotFound(_)),
{
    match found {
        Some(f) => Ok(f),
        None => {
            let msg = String::from_str("OsFolder not found from path: ").concat(folder_path);
            Err(DatabaseError::OsFoldersNotFound(msg))
        },
    }
}

/// The child folders of a directory, sorted as asked.
pub fn get_os_folders_by_path(folders: &Vec<OsFolder>, parent_path: &str, sort_type: &str) -> (r:
    Result<Vec<OsFolder>, DatabaseError>)
    ensures
        spec_child_folders(folders@, parent_path@).len() == 0 ==> r matches Err(
            DatabaseError::OsFoldersNotFound(_),
        ),
        spec_child_folders(folders@, parent_path@).len() > 0 && !SortType::spec_valid_name(
            sort_type@,
        ) ==> (r matches Err(DatabaseError::SortType(SortTypeError::FromStr(m))) && m@
            == sort_type@),
        spec_child_folders(folders@, parent_path@).len() > 0 && SortType::spec_valid_name(
            sort_type@,
        ) ==> (r matches Ok(v) && v@ == spec_sorted_records(
            SortType::spec_of_name(sort_type@),
            spec_child_folders(folders@, parent_path@),
        )),
{
    let kept = child_folders(folders, parent_path);
    if kept.len() == 0 {
        let msg = String::from_str("0 child folders found in dir: ").concat(parent_path);
        return Err(DatabaseError::OsFoldersNotFound(msg));
    }
    let st = match SortType::from_str(sort_type) {
        Ok(st) => st,
        Err(e) => {
            return Err(DatabaseError::SortType(e));
        },
    };
    Ok(st.sort(&kept))
}

/// The panels of one directory, in chapter order.
pub fn get_panels(panels: &Vec<MangaPanel>, parent_path: &str) -> (r: Result<
    Vec<MangaPanel>,
    DatabaseError,
>)
    ensures
        spec_panels_of(panels@, parent_path@).len() == 0 ==> r matches Err(
            DatabaseError::PanelsNotFound(_),
        ),
        spec_panels_of(panels@, parent_path@).len() > 0 ==> (r matches Ok(v) && v@
            == spec_sort_episode(spec_panels_of(panels@, parent_path@))),
{
    let kept = panels_of(panels, parent_path);
    if kept.len() == 0 {
        let msg = String::from_str("0 Panels found belonging to: ").concat(parent_path);
        return Err(DatabaseError::PanelsNotFound(msg));
    }
    Ok(sort_episode(&kept))
}

/// Folder records stamped with a new update time, and, when a user rode
/// along, that user pointed at the first folder of the list as the last
/// one read.
pub fn update_os_folders(folders: &Vec<OsFolder>, user: Option<User>, date: &str, time: &str) -> (r:
    (Vec<OsFolder>, Option<User>))
    ensures
        r.0@.len() == folders@.len(),
        forall|i: int|
            0 <= i < folders@.len() ==> (#[trigger] r.0@[i])@ == (SpecFolder {
                update_date: date@,
                update_time: time@,
                ..folders@[i]@
            }),
        match user {
            Some(u) => r.1 matches Some(u2) && u2@ == (SpecUser {
                last_read_manga_folder: if folders@.len() > 0 {
                    Some(folders@[0]@)
                } else {
                    None
                },
                ..u@
            }),
            None => r.1 is None,
        },
{
    let user2 = match user {
        Some(u) => {
            let mut u2 = u;
            if folders.len() > 0 {
                u2.last_read_manga_folder = Some(folders[0].deep_clone());
            } else {
                u2.last_read_manga_folder = None;
            }
            Some(u2)
        },
        None => None,
    };
    let n = folders.len();
    let mut out: Vec<OsFolder> = Vec::new();
    for i in 0..n
        invariant
            n == folders@.len(),
            out@.len() == i,
            forall|k: int|
                0 <= k < i ==> (#[trigger] out@[k])@ == (SpecFolder {
                    update_date: date@,
                    update_time: time@,
                    ..folders@[k]@
                }),
    {
        let mut f = folders[i].deep_clone();
        f.update_date = String::from_str(date);
        f.update_time = String::from_str(time);
        out.push(f);
    }
    (out, user2)
}

/// Panel records stamped with a new update time, and marked read or unread
/// when asked.
pub fn update_panels(panels: &Vec<MangaPanel>, watched: Option<bool>, date: &str, time: &str) -> (r:
    Vec<MangaPanel>)
    ensures
        r@.len() == panels@.len(),
        forall|i: int|
            0 <= i < panels@.len() ==> (#[trigger] r@[i])@ == (SpecPanel {
                update_date: date@,
                update_time: time@,
                is_read: match watched {
                    Some(w) => w,
                    None => panels@[i].is_read,
                },
                ..panels@[i]@
            }),
{
    let n = panels.len();
    let mut out: Vec<MangaPanel> = Vec::new();
    for i in 0..n
        invariant
            n == panels@.len(),
            out@.len() == i,
            forall|k: int|
                0 <= k < i ==> (#[trigger] out@[k])@ == (SpecPanel {
                    update_date: date@,
                    update_time: time@,
                    is_read: match watched {
                        Some(w) => w,
                        None => panels@[k].is_read,
                    },
                    ..panels@[k]@
                }),
    {
        let mut p = panels[i].deep_clone();
        p.update_date = String::from_str(date);
        p.update_time = String::from_str(time);
        match watched {
            Some(w) => {
                p.is_read = w;
            },
            None => {},
        }
        out.push(p);
    }
    (out)
}

/// The user, or a not-found error.
pub fn get_default_user(user: Option<User>) -> (r: Result<User, DatabaseError>)
    ensures
        user matches Some(u) ==> r == Ok::<User, DatabaseError>(u),
        user is None ==> (r matches Err(DatabaseError::UserNotFound(m)) && m@
            == "User with ID 1 not found."@),
{
    match user {
        Some(u) => Ok(u),
        None => Err(DatabaseError::UserNotFound(String::from_str("User with ID 1 not found."))),
    }
}

/// The user fetched by id, or a not-found error naming the id.
pub fn get_user_by_id(user: Option<User>, user_id: &str) -> (r: Result<User, DatabaseError>)
    ensures
        user matches Some(u) ==> r == Ok::<User, DatabaseError>(u),
        user is None ==> r matches Err(DatabaseError::UserNotFound(_)),
{
    match user {
        Some(u) => Ok(u),
        None => {
            let msg = String::from_str("User with ID ").concat(user_id).concat(" not found.");
            Err(DatabaseError::UserNotFound(msg))
        },
    }
}

/// The largest index of a sorted folder list that carries the given path,
/// or -1.
pub open spec fn spec_last_index_with_path(s: Seq<OsFolder>, p: Seq<char>) -> int
    decreases s.len(),
{
    if s.len() == 0 {
        -1
    } else if s.last().path@ == p {
        s.len() - 1
    } else {
        spec_last_index_with_path(s.drop_last(), p)
    }
}

/// The smallest index of a sorted folder list that carries the given path,
/// or the length.
pub open spec fn spec_first_index_with_path(s: Seq<OsFolder>, p: Seq<char>) -> int
    decreases s.len(),
{
    if s.len() == 0 {
        0
    } else if s[0].path@ == p {
        0
    } else {
        1 + spec_first_index_with_path(s.drop_first(), p)
    }
}

pub proof fn lemma_last_index_with_path(s: Seq<OsFolder>, p: Seq<char>)
    ensures
        -1 <= spec_last_index_with_path(s, p) < s.len(),
        spec_last_index_with_path(s, p) >= 0 ==> s[spec_last_index_with_path(s, p)].path@ == p,
        forall|k: int| spec_last_index_with_path(s, p) < k < s.len() ==> s[k].path@ != p,
    decreases s.len(),
{
    if s.len() > 0 && s.last().path@ != p {
        lemma_last_index_with_path(s.drop_last(), p);
        assert forall|k: int|
            spec_last_index_with_path(s, p) < k < s.len() implies s[k].path@ != p by {
            if k < s.len() - 1 {
                assert(s.drop_last()[k] == s[k]);
            }
        }
    }
}

pub proof fn lemma_first_index_with_path(s: Seq<OsFolder>, p: Seq<char>)
    ensures
        0 <= spec_first_index_with_path(s, p) <= s.len(),
        spec_first_index_with_path(s, p) < s.len() ==> s[spec_first_index_with_path(s, p)].path@
            == p,
        forall|k: int| 0 <= k < spec_first_index_with_path(s, p) ==> s[k].path@ != p,
    decreases s.len(),
{
    if s.len() > 0 && s[0].path@ != p {
        lemma_first_index_with_path(s.drop_first(), p);
        assert forall|k: int|
            0 <= k < spec_first_index_with_path(s, p) implies s[k].path@ != p by {
            if k > 0 {
                assert(s.drop_first()[k - 1].path@ != p);
            }
        }
    }
}

/// The folder that precedes the current one among its siblings, in chapter
/// order.  The last occurrence of the current path is the anchor; a missing
/// anchor or an anchor already first is a not-found error.
pub fn get_prev_folder(parent_path: &str, current_folder: &OsFolder, folders: &Vec<OsFolder>) -> (r:
    Result<OsFolder, DatabaseError>)
    ensures
        folders@.len() == 0 ==> r matches Err(DatabaseError::OsFoldersNotFound(_)),
        folders@.len() > 0 ==> ({
            let s = spec_sort_episode(folders@);
            let i = spec_last_index_with_path(s, current_folder.path@);
            &&& i >= 1 ==> (r matches Ok(f) && f == s[i - 1])
            &&& i < 1 ==> r matches Err(DatabaseError::OsFoldersNotFound(_))
        }),
{
    if folders.len() == 0 {
        let msg = String::from_str("0 child folders found in dir: ").concat(parent_path);
        return Err(DatabaseError::OsFoldersNotFound(msg));
    }
    let sorted = sort_episode(folders);
    proof {
        lemma_last_index_with_path(sorted@, current_folder.path@);
    }
    let n = sorted.len();
    let mut j = n;
    loop
        invariant
            0 <= j <= n,
            n == sorted@.len(),
            folders@.len() > 0,
            sorted@ == spec_sort_episode(folders@),
            forall|k: int| j <= k < n ==> sorted@[k].path@ != current_folder.path@,
            spec_last_index_with_path(sorted@, current_folder.path@) < j,
        decreases j,
    {
        proof {
            lemma_last_index_with_path(sorted@, current_folder.path@);
        }
        if j == 0 {
            let msg = String::from_str("could not get first child folder from parent: ").concat(
                parent_path,
            );
            return Err(DatabaseError::OsFoldersNotFound(msg));
        }
        if str_eq(sorted[j - 1].path.as_str(), current_folder.path.as_str()) {
            proof {
                assert(spec_last_index_with_path(sorted@, current_folder.path@) == j - 1);
            }
            if j - 1 >= 1 {
                return Ok(sorted[j - 2].deep_clone());
            } else {
                let msg = String::from_str("could not get first child folder from parent: ")
                    .concat(parent_path);
                return Err(DatabaseError::OsFoldersNotFound(msg));
            }
        }
        j = j - 1;
    }
}

/// The folder that follows the current one among its siblings, in chapter
/// order.  The first occurrence of the current path is the anchor; a
/// missing anchor or an anchor already last is a not-found error.
pub fn get_next_folder(parent_path: &str, current_folder: &OsFolder, folders: &Vec<OsFolder>) -> (r:
    Result<OsFolder, DatabaseError>)
    ensures
        folders@.len() == 0 ==> r matches Err(DatabaseError::OsFoldersNotFound(_)),
        folders@.len() > 0 ==> ({
            let s = spec_sort_episode(folders@);
            let i = spec_first_index_with_path(s, current_folder.path@);
            &&& i + 1 < s.len() ==> (r matches Ok(f) && f == s[i + 1])
            &&& i + 1 >= s.len() ==> r matches Err(DatabaseError::OsFoldersNotFound(_))
        }),
{
    if folders.len() == 0 {
        let msg = String::from_str("0 child folders found in dir: ").concat(parent_path);
        return Err(DatabaseError::OsFoldersNotFound(msg));
    }
    let sorted = sort_episode(folders);
    proof {
        lemma_first_index_with_path(sorted@, current_folder.path@);
    }
    let n = sorted.len();
    let mut j: usize = 0;
    loop
        invariant
            0 <= j <= n,
            n == sorted@.len(),
            folders@.len() > 0,
            sorted@ == spec_sort_episode(folders@),
            forall|k: int| 0 <= k < j ==> sorted@[k].path@ != current_folder.path@,
            spec_first_index_with_path(sorted@, current_folder.path@) >= j,
        decreases n - j,
    {
        proof {
            lemma_first_index_with_path(sorted@, current_folder.path@);
        }
        if j == n {
            let msg = String::from_str("could not get first child folder from parent: ").concat(
                parent_path,
            );
            return Err(DatabaseError::OsFoldersNotFound(msg));
        }
        if str_eq(sorted[j].path.as_str(), current_folder.path.as_str()) {
            proof {
                lemma_first_index_with_path(sorted@, current_folder.path@);
                assert(spec_first_index_with_path(sorted@, current_folder.path@) == j);
            }
            if j + 1 < n {
                return Ok(sorted[j + 1].deep_clone());
            } else {
                let msg = String::from_str("could not get first child folder from parent: ")
                    .concat(parent_path);
                return Err(DatabaseError::OsFoldersNotFound(msg));
            }
        }
        j = j + 1;
    }
}

/// A list whose every element passes the filter comes through whole.
pub proof fn lemma_filter_all<A>(s: Seq<A>, pred: spec_fn(A) -> bool)
    requires
        forall|i: int| 0 <= i < s.len() ==> pred(#[trigger] s[i]),
    ensures
        s.filter(pred) == s,
    decreases s.len(),
{
    reveal(Seq::filter);
    if s.len() > 0 {
        assert forall|i: int| 0 <= i < s.drop_last().len() implies pred(
            #[trigger] s.drop_last()[i],
        ) by {
            assert(s.drop_last()[i] == s[i]);
        }
        lemma_filter_all(s.drop_last(), pred);
        assert(s.filter(pred) =~= s.drop_last().push(s.last()));
        assert(s.drop_last().push(s.last()) =~= s);
    }
}

/// A list whose no element passes the filter comes through empty.
pub proof fn lemma_filter_none<A>(s: Seq<A>, pred: spec_fn(A) -> bool)
    requires
        forall|i: int| 0 <= i < s.len() ==> !pred(#[trigger] s[i]),
    ensures
        s.filter(pred) == Seq::<A>::empty(),
    decreases s.len(),
{
    reveal(Seq::filter);
    if s.len() > 0 {
        assert forall|i: int| 0 <= i < s.drop_last().len() implies !pred(
            #[trigger] s.drop_last()[i],
        ) by {
            assert(s.drop_last()[i] == s[i]);
        }
        lemma_filter_none(s.drop_last(), pred);
    }
}

/// One entry of the application's cover directory, as the host listed it.
#[derive(Clone, Debug)]
pub struct CoverDirEntry {
    pub name: String,
    pub is_dir: bool,
    pub is_file: bool,
}

impl DeepClone for CoverDirEntry {
    fn deep_clone(&self) -> (r: Self)
        ensures
            r == *self,
    {
        CoverDirEntry { name: self.name.clone(), is_dir: self.is_dir, is_file: self.is_file }
    }
}

/// A folder that lies under a deleted folder: its stored parent path is
/// the deleted folder's path or a path inside it, across a separator
/// boundary, so a sibling whose path merely shares the prefix's
/// characters is untouched.
pub open spec fn spec_is_folder_under(prefix: Seq<char>) -> spec_fn(OsFolder) -> bool {
    |f: OsFolder|
        match f.parent_path {
            Some(pp) => spec_is_path_under(pp@, prefix),
            None => false,
        }
}

/// A panel that lies under a deleted folder.
pub open spec fn spec_is_panel_under(prefix: Seq<char>) -> spec_fn(MangaPanel) -> bool {
    |p: MangaPanel| spec_is_path_under(p.parent_path@, prefix)
}

/// Every stored folder a deletion removes: for each target in order, the
/// stored folders under it, then the target itself.
pub open spec fn spec_cascade_folders(targets: Seq<OsFolder>, stored: Seq<OsFolder>) -> Seq<
    OsFolder,
>
    decreases targets.len(),
{
    if targets.len() == 0 {
        Seq::<OsFolder>::empty()
    } else {
        spec_cascade_folders(targets.drop_last(), stored) + stored.filter(
            spec_is_folder_under(targets.last().path@),
        ) + seq![targets.last()]
    }
}

/// Every stored panel a deletion removes.
pub open spec fn spec_cascade_panels(targets: Seq<OsFolder>, stored: Seq<MangaPanel>) -> Seq<
    MangaPanel,
>
    decreases targets.len(),
{
    if targets.len() == 0 {
        Seq::<MangaPanel>::empty()
    } else {
        spec_cascade_panels(targets.drop_last(), stored) + stored.filter(
            spec_is_panel_under(targets.last().path@),
        )
    }
}

/// Whether the user's last-read pointer names a removed folder.
pub open spec fn spec_lrmf_deleted(u: SpecUser, removed: Seq<OsFolder>) -> bool {
    match u.last_read_manga_folder {
        Some(l) => exists|k: int|
            0 <= k < removed.len() && (#[trigger] removed[k]).path@ == l.path,
        None => false,
    }
}

fn folders_under(stored: &Vec<OsFolder>, prefix: &str) -> (r: Vec<OsFolder>)
    ensures
        r@ == stored@.filter(spec_is_folder_under(prefix@)),
{
    let n = stored.len();
    let mut r: Vec<OsFolder> = Vec::new();
    proof {
        assert(stored@.subrange(0, 0) =~= Seq::<OsFolder>::empty());
        lemma_filter_empty(spec_is_folder_under(prefix@));
    }
    for i in 0..n
        invariant
            n == stored@.len(),
            r@ == stored@.subrange(0, i as int).filter(spec_is_folder_under(prefix@)),
    {
        proof {
            lemma_filter_step(stored@, i as int, spec_is_folder_under(prefix@));
        }
        let f = &stored[i];
        let keep = match &f.parent_path {
            Some(pp) => path_is_under(pp.as_str(), prefix),
            None => false,
        };
        if keep {
            r.push(f.deep_clone());
        }
    }
    proof {
        assert(stored@.subrange(0, n as int) =~= stored@);
    }
    r
}

fn panels_under(stored: &Vec<MangaPanel>, prefix: &str) -> (r: Vec<MangaPanel>)
    ensures
        r@ == stored@.filter(spec_is_panel_under(prefix@)),
{
    let n = stored.len();
    let mut r: Vec<MangaPanel> = Vec::new();
    proof {
        assert(stored@.subrange(0, 0) =~= Seq::<MangaPanel>::empty());
        lemma_filter_empty(spec_is_panel_under(prefix@));
    }
    for i in 0..n
        invariant
            n == stored@.len(),
            r@ == stored@.subrange(0, i as int).filter(spec_is_panel_under(prefix@)),
    {
        proof {
            lemma_filter_step(stored@, i as int, spec_is_panel_under(prefix@));
        }
        let p = &stored[i];
        if path_is_under(p.parent_path.as_str(), prefix) {
            r.push(p.deep_clone());
        }
    }
    proof {
        assert(stored@.subrange(0, n as int) =~= stored@);
    }
    r
}

/// Whether some folder of the list carries the given path.
fn any_folder_with_path(folders: &Vec<OsFolder>, path: &str) -> (r: bool)
    ensures
        r == exists|k: int|
            0 <= k < folders@.len() && (#[trigger] folders@[k]).path@ == path@,
{
    let n = folders.len();
    for i in 0..n
        invariant
            n == folders@.len(),
            forall|k: int| 0 <= k < i ==> folders@[k].path@ != path@,
    {
        if str_eq(folders[i].path.as_str(), path) {
            return true;
        }
    }
    false
}

/// The cascading deletion plan: which stored folder and panel records
/// deleting the given folders removes, and the user with the last-read
/// pointer cleared when it names a removed folder.  The host performs the
/// removals this returns, in order.
pub fn delete_os_folders(
    os_folders: &Vec<OsFolder>,
    stored_folders: &Vec<OsFolder>,
    stored_panels: &Vec<MangaPanel>,
    user: Option<User>,
) -> (r: (Vec<OsFolder>, Vec<MangaPanel>, Option<User>))
    ensures
        r.0@ == spec_cascade_folders(os_folders@, stored_folders@),
        r.1@ == spec_cascade_panels(os_folders@, stored_panels@),
        match user {
            Some(u) => r.2 matches Some(u2) && u2@ == (SpecUser {
                last_read_manga_folder: if spec_lrmf_deleted(
                    u@,
                    spec_cascade_folders(os_folders@, stored_folders@),
                ) {
                    None
                } else {
                    u@.last_read_manga_folder
                },
                ..u@
            }),
            None => r.2 is None,
        },
{
    let nt = os_folders.len();
    let mut del_f: Vec<OsFolder> = Vec::new();
    let mut del_p: Vec<MangaPanel> = Vec::new();
    proof {
        assert(os_folders@.subrange(0, 0) =~= Seq::<OsFolder>::empty());
    }
    for i in 0..nt
        invariant
            nt == os_folders@.len(),
            del_f@ == spec_cascade_folders(os_folders@.subrange(0, i as int), stored_folders@),
            del_p@ == spec_cascade_panels(os_folders@.subrange(0, i as int), stored_panels@),
    {
        let t = &os_folders[i];
        let children = folders_under(stored_folders, t.path.as_str());
        let panels = panels_under(stored_panels, t.path.as_str());
        let ghost pre_f = del_f@;
        let ghost pre_p = del_p@;
        let nc = children.len();
        for k in 0..nc
            invariant
                nc == children@.len(),
                del_f@ == pre_f + children@.subrange(0, k as int),
        {
            proof {
                assert(children@.subrange(0, k + 1).drop_last() =~= children@.subrange(
                    0,
                    k as int,
                ));
                assert(del_f@.push(children@[k as int]) =~= pre_f + children@.subrange(0, k + 1));
            }
            del_f.push(children[k].deep_clone());
        }
        proof {
            assert(children@.subrange(0, nc as int) =~= children@);
        }
        del_f.push(t.deep_clone());
        let np = panels.len();
        for k in 0..np
            invariant
                np == panels@.len(),
                del_p@ == pre_p + panels@.subrange(0, k as int),
        {
            proof {
                assert(del_p@.push(panels@[k as int]) =~= pre_p + panels@.subrange(0, k + 1));
            }
            del_p.push(panels[k].deep_clone());
        }
        proof {
            assert(panels@.subrange(0, np as int) =~= panels@);
            let sub1 = os_folders@.subrange(0, i + 1);
            assert(sub1.drop_last() =~= os_folders@.subrange(0, i as int));
            assert(sub1.last() == os_folders@[i as int]);
            assert(del_f@ =~= spec_cascade_folders(sub1, stored_folders@));
            assert(del_p@ =~= spec_cascade_panels(sub1, stored_panels@));
        }
    }
    proof {
        assert(os_folders@.subrange(0, nt as int) =~= os_folders@);
    }
    let user2 = match user {
        Some(u) => {
            let cleared = match &u.last_read_manga_folder {
                Some(l) => any_folder_with_path(&del_f, l.path.as_str()),
                None => false,
            };
            if cleared {
                let mut u2 = u;
                u2.last_read_manga_folder = None;
                Some(u2)
            } else {
                Some(u)
            }
        },
        None => None,
    };
    (del_f, del_p, user2)
}

impl OsFolder {
    /// Whether one cover-directory entry belongs to this folder: a
    /// directory named after the folder's title, or a file named exactly
    /// as the folder's stored cover image path.
    pub open spec fn spec_cover_entry_of(self, e: CoverDirEntry) -> bool {
        (e.is_dir && e.name@ == self.title@) || (!e.is_dir && e.is_file && (
        match self.cover_img_path {
            Some(c) => c@ == e.name@,
            None => false,
        }))
    }

    /// The entries of the application's cover directory that deleting this
    /// folder removes.  The host lists that directory, and removes exactly
    /// the entries this returns.
    pub fn delete_app_data_cover_folder(&self, entries: &Vec<CoverDirEntry>) -> (r: Vec<
        CoverDirEntry,
    >)
        ensures
            r@ == entries@.filter(|e: CoverDirEntry| self.spec_cover_entry_of(e)),
    {
        let ghost pred = |e: CoverDirEntry| self.spec_cover_entry_of(e);
        let n = entries.len();
        let mut r: Vec<CoverDirEntry> = Vec::new();
        proof {
            assert(entries@.subrange(0, 0) =~= Seq::<CoverDirEntry>::empty());
            lemma_filter_empty(pred);
        }
        for i in 0..n
            invariant
                n == entries@.len(),
                pred == (|e: CoverDirEntry| self.spec_cover_entry_of(e)),
                r@ == entries@.subrange(0, i as int).filter(pred),
        {
            proof {
                lemma_filter_step(entries@, i as int, pred);
            }
            let e = &entries[i];
            let keep: bool;
            if e.is_dir {
                keep = str_eq(e.name.as_str(), self.title.as_str());
            } else if e.is_file {
                keep = match &self.cover_img_path {
                    Some(c) => str_eq(c.as_str(), e.name.as_str()),
                    None => false,
                };
            } else {
                keep = false;
            }
            if keep {
                r.push(e.deep_clone());
            }
        }
        proof {
            assert(entries@.subrange(0, n as int) =~= entries@);
        }
        r
    }
}

/// Ordering law: the chapter-order sort arranges records by their numeric
/// title keys, and every record of the input appears in the output.  With
/// the stable order's own law, records with equal keys keep their original
/// relative order.
pub proof fn lemma_sort_episode_props<T: HasTitle>(s: Seq<T>)
    requires
        s.len() <= usize::MAX,
    ensures
        spec_sort_episode(s).len() == s.len(),
        forall|a: int, b: int|
            0 <= a < b < s.len() ==> order_key(
                (#[trigger] spec_sort_episode(s)[a]).spec_title(),
            ) <= order_key((#[trigger] spec_sort_episode(s)[b]).spec_title()),
        forall|i: int|
            0 <= i < s.len() ==> spec_sort_episode(s).contains(#[trigger] s[i]),
{
    let keys = spec_episode_keys(s);
    lemma_stable_order_props(keys);
    let ord = spec_stable_order(keys);
    let sorted = spec_sort_episode(s);
    crate::heuristic::lemma_order_key_bound(Seq::<char>::empty());
    assert forall|a: int, b: int| 0 <= a < b < s.len() implies order_key(
        (#[trigger] sorted[a]).spec_title(),
    ) <= order_key((#[trigger] sorted[b]).spec_title()) by {
        assert(keys[ord[a] as int] <= keys[ord[b] as int]);
        assert(keys[ord[a] as int] == spec_episode_key(s[ord[a] as int].spec_title()));
        assert(keys[ord[b] as int] == spec_episode_key(s[ord[b] as int].spec_title()));
        lemma_order_key_nonneg(s[ord[a] as int].spec_title());
        lemma_order_key_nonneg(s[ord[b] as int].spec_title());
    }
    assert forall|i: int| 0 <= i < s.len() implies spec_sort_episode(s).contains(
        #[trigger] s[i],
    ) by {
        assert(ord.contains(i as usize));
        let w = choose|w: int| 0 <= w < ord.len() && ord[w] == i as usize;
        assert(0 <= w < spec_sort_episode(s).len() && spec_sort_episode(s)[w] == s[i]);
    }
}

proof fn lemma_order_key_nonneg(title: Seq<char>)
    ensures
        0 <= order_key(title) <= 999,
{
    crate::heuristic::lemma_order_key_bound(title);
}

/// Deletion cascade law: deleting a set of folders removes each of them,
/// every stored folder whose parent path lies at or under a deleted
/// folder's path, and every stored panel whose parent path lies at or
/// under a deleted folder's path — and nothing else.  Lying under means
/// continuing the path across a separator, so siblings that merely share
/// its characters stay.
pub proof fn lemma_deletion_cascade(
    targets: Seq<OsFolder>,
    stored_folders: Seq<OsFolder>,
    stored_panels: Seq<MangaPanel>,
)
    ensures
        forall|k: int|
            0 <= k < targets.len() ==> spec_cascade_folders(targets, stored_folders).contains(
                #[trigger] targets[k],
            ),
        forall|j: int, k: int|
            #![trigger stored_folders[j], targets[k]]
            0 <= j < stored_folders.len() && 0 <= k < targets.len() && spec_is_folder_under(
                targets[k].path@,
            )(stored_folders[j]) ==> spec_cascade_folders(targets, stored_folders).contains(
                stored_folders[j],
            ),
        forall|j: int, k: int|
            #![trigger stored_panels[j], targets[k]]
            0 <= j < stored_panels.len() && 0 <= k < targets.len() && spec_is_panel_under(
                targets[k].path@,
            )(stored_panels[j]) ==> spec_cascade_panels(targets, stored_panels).contains(
                stored_panels[j],
            ),
        forall|x: OsFolder|
            #[trigger] spec_cascade_folders(targets, stored_folders).contains(x)
                ==> targets.contains(x) || exists|k: int|
                0 <= k < targets.len() && spec_is_folder_under((#[trigger] targets[k]).path@)(x),
        forall|x: MangaPanel|
            #[trigger] spec_cascade_panels(targets, stored_panels).contains(x) ==> exists|k: int|
                0 <= k < targets.len() && spec_is_panel_under((#[trigger] targets[k]).path@)(x),
    decreases targets.len(),
{
    broadcast use vstd::seq_lib::group_filter_ensures;

    if targets.len() > 0 {
        lemma_deletion_cascade(targets.drop_last(), stored_folders, stored_panels);
        let rest = targets.drop_last();
        let t = targets.last();
        let pre = spec_cascade_folders(rest, stored_folders);
        let fil = stored_folders.filter(spec_is_folder_under(t.path@));
        let whole = pre + fil + seq![t];
        assert(whole == spec_cascade_folders(targets, stored_folders));
        let pre_p = spec_cascade_panels(rest, stored_panels);
        let fil_p = stored_panels.filter(spec_is_panel_under(t.path@));
        let whole_p = pre_p + fil_p;
        assert(whole_p == spec_cascade_panels(targets, stored_panels));
        assert forall|x: OsFolder| pre.contains(x) implies whole.contains(x) by {
            let i = choose|i: int| 0 <= i < pre.len() && pre[i] == x;
            assert(whole[i] == x);
        }
        assert forall|x: OsFolder| fil.contains(x) implies whole.contains(x) by {
            let i = choose|i: int| 0 <= i < fil.len() && fil[i] == x;
            assert(whole[pre.len() + i] == x);
        }
        assert(whole[whole.len() - 1] == t);
        assert(whole.contains(t));
        assert forall|x: MangaPanel| pre_p.contains(x) implies whole_p.contains(x) by {
            let i = choose|i: int| 0 <= i < pre_p.len() && pre_p[i] == x;
            assert(whole_p[i] == x);
        }
        assert forall|x: MangaPanel| fil_p.contains(x) implies whole_p.contains(x) by {
            let i = choose|i: int| 0 <= i < fil_p.len() && fil_p[i] == x;
            assert(whole_p[pre_p.len() + i] == x);
        }
        assert forall|k: int| 0 <= k < targets.len() implies whole.contains(
            #[trigger] targets[k],
        ) by {
            if k < targets.len() - 1 {
                assert(rest[k] == targets[k]);
                assert(pre.contains(targets[k]));
            }
        }
        assert forall|j: int, k: int|
            #![trigger stored_folders[j], targets[k]]
            0 <= j < stored_folders.len() && 0 <= k < targets.len() && spec_is_folder_under(
                targets[k].path@,
            )(stored_folders[j]) implies whole.contains(stored_folders[j]) by {
            if k < targets.len() - 1 {
                assert(rest[k] == targets[k]);
                assert(pre.contains(stored_folders[j]));
            } else {
                assert(targets[k] == t);
                assert(fil.contains(stored_folders[j]));
            }
        }
        assert forall|j: int, k: int|
            #![trigger stored_panels[j], targets[k]]
            0 <= j < stored_panels.len() && 0 <= k < targets.len() && spec_is_panel_under(
                targets[k].path@,
            )(stored_panels[j]) implies whole_p.contains(stored_panels[j]) by {
            if k < targets.len() - 1 {
                assert(rest[k] == targets[k]);
                assert(pre_p.contains(stored_panels[j]));
            } else {
                assert(targets[k] == t);
                assert(fil_p.contains(stored_panels[j]));
            }
        }
        assert forall|x: OsFolder| #[trigger] whole.contains(x) implies targets.contains(x)
            || exists|k: int|
            0 <= k < targets.len() && spec_is_folder_under((#[trigger] targets[k]).path@)(
                x,
            ) by {
            let i = choose|i: int| 0 <= i < whole.len() && whole[i] == x;
            if i < pre.len() {
                assert(pre[i] == x);
                assert(pre.contains(x));
                if rest.contains(x) {
                    let w = choose|w: int| 0 <= w < rest.len() && rest[w] == x;
                    assert(targets[w] == x);
                    assert(targets.contains(x));
                } else {
                    let k = choose|k: int|
                        0 <= k < rest.len() && spec_is_folder_under((rest[k]).path@)(x);
                    assert(targets[k] == rest[k]);
                    assert(spec_is_folder_under((targets[k]).path@)(x));
                }
            } else if i < pre.len() + fil.len() {
                assert(fil[i - pre.len()] == x);
                assert(fil.contains(x));
                let w = choose|w: int| 0 <= w < fil.len() && fil[w] == x;
                assert(spec_is_folder_under(t.path@)(fil[w]));
                assert(targets[targets.len() - 1] == t);
                assert(spec_is_folder_under((targets[targets.len() - 1]).path@)(x));
            } else {
                assert(x == t);
                assert(targets[targets.len() - 1] == x);
                assert(targets.contains(x));
            }
        }
        assert forall|x: MangaPanel| #[trigger] whole_p.contains(x) implies exists|k: int|
            0 <= k < targets.len() && spec_is_panel_under((#[trigger] targets[k]).path@)(x) by {
            let i = choose|i: int| 0 <= i < whole_p.len() && whole_p[i] == x;
            if i < pre_p.len() {
                assert(pre_p[i] == x);
                assert(pre_p.contains(x));
                let k = choose|k: int|
                    0 <= k < rest.len() && spec_is_panel_under((rest[k]).path@)(x);
                assert(targets[k] == rest[k]);
                assert(spec_is_panel_under((targets[k]).path@)(x));
            } else {
                assert(fil_p[i - pre_p.len()] == x);
                assert(fil_p.contains(x));
                let w = choose|w: int| 0 <= w < fil_p.len() && fil_p[w] == x;
                assert(spec_is_panel_under(t.path@)(fil_p[w]));
                assert(targets[targets.len() - 1] == t);
                assert(spec_is_panel_under((targets[targets.len() - 1]).path@)(x));
            }
        }
    }
}

} // verus!
