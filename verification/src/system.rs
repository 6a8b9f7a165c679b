use vstd::prelude::*;

use crate::app::{App, AppModel};
use crate::format::{parse_app, parse_entry, render, render_app};

verus! {

/// Failure of the entry store.
#[derive(Debug, PartialEq, Eq, Structural)]
pub enum StoreError {
    /// A stored file exists but required fields are absent or unreadable.
    MalformedEntry,
}

/// Failure to launch a registered application.
#[derive(Debug, PartialEq, Eq, Structural)]
pub enum SpawnError {
    /// The command held no executable word.
    EmptyCommand,
    /// The operating system refused to launch the executable.
    LaunchFailed,
}

/// Mathematical model of the entry store: the directory path and the named
/// entry files it holds.
pub struct SystemModel {
    pub autostart_dir: Seq<char>,
    pub files: Seq<(Seq<char>, Seq<char>)>,
}

/// First index of a file called `name`, or `-1` when there is none.
pub open spec fn name_index(files: Seq<(Seq<char>, Seq<char>)>, name: Seq<char>) -> int
    decreases files.len(),
{
    if files.len() == 0 {
        -1
    } else if files[0].0 == name {
        0
    } else {
        let r = name_index(files.skip(1), name);
        if r < 0 {
            -1
        } else {
            r + 1
        }
    }
}

/// What `name_index` returns: the first file of that name, or `-1`.
pub proof fn lemma_name_index(files: Seq<(Seq<char>, Seq<char>)>, name: Seq<char>)
    ensures
        name_index(files, name) >= 0 ==> {
            &&& name_index(files, name) < files.len()
            &&& files[name_index(files, name)].0 == name
            &&& forall|j: int| 0 <= j < name_index(files, name) ==> files[j].0 != name
        },
        name_index(files, name) < 0 ==> forall|j: int|
            0 <= j < files.len() ==> files[j].0 != name,
    decreases files.len(),
{
    if files.len() == 0 {
    } else if files[0].0 == name {
    } else {
        lemma_name_index(files.skip(1), name);
        let r = name_index(files.skip(1), name);
        if r < 0 {
            assert forall|j: int| 0 <= j < files.len() implies files[j].0 != name by {
                if j > 0 {
                    assert(files[j] == files.skip(1)[j - 1]);
                }
            }
        } else {
            assert(files[r + 1] == files.skip(1)[r]);
            assert forall|j: int| 0 <= j < r + 1 implies files[j].0 != name by {
                if j > 0 {
                    assert(files[j] == files.skip(1)[j - 1]);
                }
            }
        }
    }
}

/// `name_index` is pinned down by any witness of a first occurrence.
pub proof fn lemma_name_index_is(files: Seq<(Seq<char>, Seq<char>)>, name: Seq<char>, i: int)
    requires
        0 <= i < files.len(),
        files[i].0 == name,
        forall|j: int| 0 <= j < i ==> files[j].0 != name,
    ensures
        name_index(files, name) == i,
    decreases files.len(),
{
    if i == 0 {
    } else {
        assert(forall|j: int|
            0 <= j < files.len() - 1 ==> files.skip(1)[j] == files[j + 1]);
        lemma_name_index_is(files.skip(1), name, i - 1);
    }
}

/// The contents of the file called `name`, when the store holds one.
pub open spec fn lookup(files: Seq<(Seq<char>, Seq<char>)>, name: Seq<char>) -> Option<Seq<char>> {
    let i = name_index(files, name);
    if i >= 0 {
        Some(files[i].1)
    } else {
        None
    }
}

/// The store after writing `contents` under `name`: a present file is
/// replaced, an absent one appended.
pub open spec fn upsert(
    files: Seq<(Seq<char>, Seq<char>)>,
    name: Seq<char>,
    contents: Seq<char>,
) -> Seq<(Seq<char>, Seq<char>)> {
    let i = name_index(files, name);
    if i >= 0 {
        files.remove(i).push((name, contents))
    } else {
        files.push((name, contents))
    }
}

/// The parsed entries of the store, in file order, unreadable files skipped.
pub open spec fn entries(files: Seq<(Seq<char>, Seq<char>)>) -> Seq<AppModel>
    decreases files.len(),
{
    if files.len() == 0 {
        Seq::empty()
    } else {
        let rest = entries(files.drop_last());
        match parse_entry(files.last().1) {
            Some(m) => rest.push(m),
            None => rest,
        }
    }
}

/// What `get_autostart` returns, as a function of the store model.
pub open spec fn get_spec(sys: SystemModel, id: Seq<char>) -> Result<
    Option<AppModel>,
    StoreError,
> {
    match lookup(sys.files, entry_file_name(id)) {
        None => Ok(None),
        Some(contents) => match parse_entry(contents) {
            Some(m) => Ok(Some(m)),
            None => Err(StoreError::MalformedEntry),
        },
    }
}

/// The file name that stores the entry for `id`.
pub open spec fn entry_file_name(id: Seq<char>) -> Seq<char> {
    id + ".desktop"@
}

/// Two identifiers with the same entry file name are the same identifier.
pub proof fn lemma_entry_file_name_injective(a: Seq<char>, b: Seq<char>)
    requires
        entry_file_name(a) == entry_file_name(b),
    ensures
        a == b,
{
    assert(entry_file_name(a).len() == a.len() + (".desktop"@).len());
    assert(entry_file_name(b).len() == b.len() + (".desktop"@).len());
    assert(a.len() == b.len());
    assert(a =~= b) by {
        assert(forall|i: int|
            0 <= i < a.len() ==> a[i] == entry_file_name(a)[i] && b[i] == entry_file_name(b)[i]);
    }
}

/// No two files share a name.
pub open spec fn unique_names(files: Seq<(Seq<char>, Seq<char>)>) -> bool {
    forall|i: int, j: int|
        0 <= i < j < files.len() ==> (#[trigger] files[i]).0 != (#[trigger] files[j]).0
}

/// Every readable file is stored under the name that its entry's
/// identifier encodes: the store is a mapping from identifier to entry.
pub open spec fn consistent_names(files: Seq<(Seq<char>, Seq<char>)>) -> bool {
    forall|i: int|
        0 <= i < files.len() ==> match parse_entry((#[trigger] files[i]).1) {
            Some(m) => files[i].0 == entry_file_name(m.id),
            None => true,
        }
}

/// Some file bears this name.
pub open spec fn has_file_named(files: Seq<(Seq<char>, Seq<char>)>, name: Seq<char>) -> bool {
    exists|f: int| 0 <= f < files.len() && (#[trigger] files[f]).0 == name
}

impl SystemModel {
    /// Well-formed store: file names are unique, and a readable file's
    /// identifier matches its name.
    pub open spec fn wf(self) -> bool {
        &&& unique_names(self.files)
        &&& consistent_names(self.files)
    }
}

/// Writing a file whose contents do not belie its name keeps the store
/// well-formed.
pub proof fn lemma_upsert_wf(
    files: Seq<(Seq<char>, Seq<char>)>,
    name: Seq<char>,
    contents: Seq<char>,
)
    requires
        unique_names(files),
        consistent_names(files),
        match parse_entry(contents) {
            Some(m) => entry_file_name(m.id) == name,
            None => true,
        },
    ensures
        unique_names(upsert(files, name, contents)),
        consistent_names(upsert(files, name, contents)),
{
    lemma_name_index(files, name);
    let i = name_index(files, name);
    let res = upsert(files, name, contents);
    if i >= 0 {
        files.remove_ensures(i);
        let rem = files.remove(i);
        assert forall|k1: int, k2: int|
            0 <= k1 < k2 < res.len() implies (#[trigger] res[k1]).0 != (#[trigger] res[k2]).0 by {
            if k2 < res.len() - 1 {
                let j1 = if k1 < i { k1 } else { k1 + 1 };
                let j2 = if k2 < i { k2 } else { k2 + 1 };
                assert(res[k1] == files[j1]);
                assert(res[k2] == files[j2]);
            } else {
                assert(res[k2].0 == name);
                let j1 = if k1 < i { k1 } else { k1 + 1 };
                assert(res[k1] == files[j1]);
                assert(files[j1].0 != name);
            }
        }
    } else {
        assert forall|k1: int, k2: int|
            0 <= k1 < k2 < res.len() implies (#[trigger] res[k1]).0 != (#[trigger] res[k2]).0 by {
            if k2 == res.len() - 1 {
                assert(res[k2].0 == name);
                assert(res[k1] == files[k1]);
            }
        }
    }
    assert forall|k: int| 0 <= k < res.len() implies match parse_entry((#[trigger] res[k]).1) {
        Some(m) => res[k].0 == entry_file_name(m.id),
        None => true,
    } by {
        if k < res.len() - 1 {
            if i >= 0 {
                let j = if k < i { k } else { k + 1 };
                assert(res[k] == files[j]);
            } else {
                assert(res[k] == files[k]);
            }
        } else {
            assert(res[k] == (name, contents));
        }
    }
}

/// The entry store: one named entry file per registered application, under a
/// fixed per-user autostart directory.
pub struct System {
    autostart_dir: String,
    files: Vec<(String, String)>,
}

impl View for System {
    type V = SystemModel;

    closed spec fn view(&self) -> SystemModel {
        SystemModel {
            autostart_dir: self.autostart_dir@,
            files: Seq::new(self.files@.len(), |i: int| (self.files@[i].0@, self.files@[i].1@)),
        }
    }
}

impl System {
    /// A store for the given autostart directory, holding no files yet.
    pub fn new(autostart_dir: String) -> (r: System)
        ensures
            r@.autostart_dir == autostart_dir@,
            r@.files == Seq::<(Seq<char>, Seq<char>)>::empty(),
            r@.wf(),
    {
        let r = System { autostart_dir, files: Vec::new() };
        proof {
            assert(r@.files =~= Seq::<(Seq<char>, Seq<char>)>::empty());
        }
        r
    }

    /// The directory the store writes under.
    pub fn autostart_dir(&self) -> (r: String)
        ensures
            r@ == self@.autostart_dir,
    {
        self.autostart_dir.clone()
    }

    /// The path of the entry file for `app_id`.
    pub fn app_path(&self, app_id: &str) -> (r: String)
        ensures
            r@ == self@.autostart_dir + "/"@ + entry_file_name(app_id@),
    {
        let mut r = self.autostart_dir.clone();
        r.append("/");
        r.append(app_id);
        r.append(".desktop");
        proof {
            assert(r@ =~= self@.autostart_dir + "/"@ + entry_file_name(app_id@));
        }
        r
    }

    /// The file name (without directory) for `app_id`.
    pub fn file_name_for(app_id: &str) -> (r: String)
        ensures
            r@ == entry_file_name(app_id@),
    {
        let mut r = String::from_str(app_id);
        r.append(".desktop");
        r
    }

    /// Writes `contents` under `name`, replacing any present file of that
    /// name; `Ok` reports whether one was replaced. A readable entry whose
    /// identifier does not match the name it would be stored under is
    /// refused: the store is a mapping from identifier to entry.
    pub fn insert_file(&mut self, name: String, contents: String) -> (r: Result<bool, StoreError>)
        requires
            old(self)@.wf(),
        ensures
            final(self)@.autostart_dir == old(self)@.autostart_dir,
            final(self)@.wf(),
            ({
                let refused = match parse_entry(contents@) {
                    Some(m) => entry_file_name(m.id) != name@,
                    None => false,
                };
                if refused {
                    &&& r == Err::<bool, StoreError>(StoreError::MalformedEntry)
                    &&& final(self)@.files == old(self)@.files
                } else {
                    &&& r == Ok::<bool, StoreError>(name_index(old(self)@.files, name@) >= 0)
                    &&& final(self)@.files == upsert(old(self)@.files, name@, contents@)
                }
            }),
    {
        match parse_app(contents.as_str()) {
            Some(parsed) => {
                let expected = Self::file_name_for(parsed.id.as_str());
                let consistent = expected == name;
                if !consistent {
                    return Err(StoreError::MalformedEntry);
                }
            },
            None => {},
        }
        let ghost fsv = self@.files;
        let mut i: usize = 0;
        let n = self.files.len();
        while i < n
            invariant
                0 <= i <= n,
                n == self.files.len(),
                fsv == self@.files,
                fsv == old(self)@.files,
                fsv.len() == n,
                self@.autostart_dir == old(self)@.autostart_dir,
                unique_names(fsv),
                consistent_names(fsv),
                match parse_entry(contents@) {
                    Some(m) => entry_file_name(m.id) == name@,
                    None => true,
                },
                forall|j: int| 0 <= j < i ==> fsv[j].0 != name@,
            decreases n - i,
        {
            let hit = self.files[i].0 == name;
            if hit {
                proof {
                    lemma_name_index_is(fsv, name@, i as int);
                }
                self.files.remove(i);
                self.files.push((name, contents));
                proof {
                    fsv.remove_ensures(i as int);
                    assert(self@.files =~= upsert(fsv, name@, contents@));
                    lemma_upsert_wf(fsv, name@, contents@);
                }
                return Ok(true);
            }
            i = i + 1;
        }
        proof {
            lemma_name_index(fsv, name@);
            if name_index(fsv, name@) >= 0 {
                assert(fsv[name_index(fsv, name@)].0 == name@);
            }
        }
        self.files.push((name, contents));
        proof {
            assert(self@.files =~= upsert(fsv, name@, contents@));
            lemma_upsert_wf(fsv, name@, contents@);
        }
        Ok(false)
    }

    /// Contents of the named file, cloned out of the store.
    fn get_file(&self, name: &String) -> (r: Option<String>)
        ensures
            match r {
                Some(c) => lookup(self@.files, name@) == Some(c@),
                None => lookup(self@.files, name@) is None,
            },
    {
        let mut i: usize = 0;
        let n = self.files.len();
        while i < n
            invariant
                0 <= i <= n,
                n == self.files.len(),
                n == self@.files.len(),
                forall|j: int| 0 <= j < i ==> self@.files[j].0 != name@,
            decreases n - i,
        {
            let hit = self.files[i].0 == *name;
            if hit {
                proof {
                    lemma_name_index_is(self@.files, name@, i as int);
                }
                return Some(self.files[i].1.clone());
            }
            i = i + 1;
        }
        proof {
            lemma_name_index(self@.files, name@);
        }
        None
    }

    /// The full path and contents of the stored entry file for `id`, for a
    /// caller that mirrors the store onto a disk directory.
    pub fn entry_file(&self, id: &str) -> (r: Option<(String, String)>)
        ensures
            match r {
                Some(pair) => {
                    &&& pair.0@ == self@.autostart_dir + "/"@ + entry_file_name(id@)
                    &&& lookup(self@.files, entry_file_name(id@)) == Some(pair.1@)
                },
                None => lookup(self@.files, entry_file_name(id@)) is None,
            },
    {
        let name = Self::file_name_for(id);
        match self.get_file(&name) {
            Some(contents) => Some((self.app_path(id), contents)),
            None => None,
        }
    }

    /// Persists `app`'s entry file, overwriting any present one; `Ok`
    /// reports whether a file for that identifier already existed (the
    /// overwrite that the service only warns about). An entry whose
    /// rendering reads back under a different identifier is refused as
    /// malformed rather than stored under a name that belies it.
    pub fn add_autostart(&mut self, app: &App) -> (r: Result<bool, StoreError>)
        requires
            old(self)@.wf(),
        ensures
            final(self)@.wf(),
            final(self)@.autostart_dir == old(self)@.autostart_dir,
            ({
                let refused = match parse_entry(render(app@)) {
                    Some(m) => m.id != app@.id,
                    None => false,
                };
                if refused {
                    &&& r == Err::<bool, StoreError>(StoreError::MalformedEntry)
                    &&& final(self)@.files == old(self)@.files
                } else {
                    &&& r == Ok::<bool, StoreError>(
                        lookup(old(self)@.files, entry_file_name(app@.id)) is Some,
                    )
                    &&& final(self)@.files == upsert(
                        old(self)@.files,
                        entry_file_name(app@.id),
                        render(app@),
                    )
                }
            }),
    {
        let name = Self::file_name_for(app.id.as_str());
        let contents = render_app(app);
        proof {
            match parse_entry(render(app@)) {
                Some(p) => {
                    if entry_file_name(p.id) == entry_file_name(app@.id) {
                        lemma_entry_file_name_injective(p.id, app@.id);
                    }
                },
                None => {},
            }
        }
        self.insert_file(name, contents)
    }

    /// Reads the stored entry for `id`: `Ok(None)` when no file exists, the
    /// parsed entry when its file is readable, `MalformedEntry` otherwise.
    pub fn get_autostart(&self, id: &str) -> (r: Result<Option<App>, StoreError>)
        ensures
            match r {
                Ok(Some(app)) => get_spec(self@, id@) == Ok::<Option<AppModel>, StoreError>(
                    Some(app@),
                ),
                Ok(None) => get_spec(self@, id@) == Ok::<Option<AppModel>, StoreError>(None),
                Err(e) => get_spec(self@, id@) == Err::<Option<AppModel>, StoreError>(e),
            },
    {
        let name = Self::file_name_for(id);
        match self.get_file(&name) {
            None => Ok(None),
            Some(contents) => match parse_app(contents.as_str()) {
                Some(app) => Ok(Some(app)),
                None => Err(StoreError::MalformedEntry),
            },
        }
    }

    /// All readable entries of the store, in file order; a file that fails
    /// to parse is skipped rather than failing the whole listing.
    pub fn list_apps(&self) -> (r: Result<Vec<App>, StoreError>)
        ensures
            r matches Ok(v) && v.deep_view() == entries(self@.files),
    {
        let mut out: Vec<App> = Vec::new();
        let mut i: usize = 0;
        let n = self.files.len();
        proof {
            assert(self@.files.take(0) =~= Seq::<(Seq<char>, Seq<char>)>::empty());
            assert(out.deep_view() =~= entries(self@.files.take(0)));
        }
        while i < n
            invariant
                0 <= i <= n,
                n == self.files.len(),
                n == self@.files.len(),
                out.deep_view() == entries(self@.files.take(i as int)),
            decreases n - i,
        {
            let ghost before = out.deep_view();
            let parsed = parse_app(self.files[i].1.as_str());
            proof {
                assert(self@.files.take(i + 1).drop_last() =~= self@.files.take(i as int));
                assert(self@.files.take(i + 1).last() == self@.files[i as int]);
            }
            match parsed {
                Some(app) => {
                    out.push(app);
                    proof {
                        assert(out.deep_view() =~~= before.push(app@));
                    }
                },
                None => {},
            }
            i = i + 1;
        }
        proof {
            assert(self@.files.take(n as int) =~= self@.files);
        }
        Ok(out)
    }
}

/// Writing under a name and then looking the same name up yields exactly
/// what was written.
pub proof fn lemma_upsert_lookup(
    files: Seq<(Seq<char>, Seq<char>)>,
    name: Seq<char>,
    contents: Seq<char>,
)
    requires
        unique_names(files),
    ensures
        lookup(upsert(files, name, contents), name) == Some(contents),
{
    lemma_name_index(files, name);
    let i = name_index(files, name);
    let res = upsert(files, name, contents);
    if i >= 0 {
        files.remove_ensures(i);
        assert forall|j: int| 0 <= j < res.len() - 1 implies res[j].0 != name by {
            let k = if j < i { j } else { j + 1 };
            assert(res[j] == files[k]);
        }
        lemma_name_index_is(res, name, res.len() - 1);
    } else {
        assert forall|j: int| 0 <= j < res.len() - 1 implies res[j].0 != name by {
            assert(res[j] == files[j]);
        }
        lemma_name_index_is(res, name, res.len() - 1);
    }
}

/// Round-trip law: persisting a storable entry and then reading the same
/// identifier from the store yields that entry back, fields intact.
pub proof fn lemma_put_get_round_trip(sys: SystemModel, a: AppModel)
    requires
        sys.wf(),
        crate::app::storable(a),
    ensures
        get_spec(
            SystemModel {
                autostart_dir: sys.autostart_dir,
                files: upsert(sys.files, entry_file_name(a.id), render(a)),
            },
            a.id,
        ) == Ok::<Option<AppModel>, StoreError>(Some(a)),
{
    lemma_upsert_lookup(sys.files, entry_file_name(a.id), render(a));
    crate::format::lemma_render_parse(a);
}

/// Existing-entry-wins law: once the store holds the entry that a first
/// registration of `a` wrote, a lookup for that identifier still yields
/// exactly `a`, whatever command, flags or enable bit a later registration
/// brings; the later registration therefore takes the existing-entry arm of
/// `Background::enable_autostart` and leaves the persisted entry identical.
pub proof fn lemma_register_idempotent(sys: SystemModel, a: AppModel, later: AppModel)
    requires
        sys.wf(),
        crate::app::storable(a),
        later.id == a.id,
    ensures
        get_spec(
            SystemModel {
                autostart_dir: sys.autostart_dir,
                files: upsert(sys.files, entry_file_name(a.id), render(a)),
            },
            later.id,
        ) == Ok::<Option<AppModel>, StoreError>(Some(a)),
{
    lemma_put_get_round_trip(sys, a);
}

/// The autostart-marked entries of a listing, in order.
pub open spec fn autostart_only(es: Seq<AppModel>) -> Seq<AppModel>
    decreases es.len(),
{
    if es.len() == 0 {
        Seq::empty()
    } else {
        let rest = autostart_only(es.drop_last());
        if es.last().autostart {
            rest.push(es.last())
        } else {
            rest
        }
    }
}

/// Every filtered entry is an autostart-marked entry of the listing.
pub proof fn lemma_autostart_only_member(es: Seq<AppModel>, k: int)
    requires
        0 <= k < autostart_only(es).len(),
    ensures
        exists|j: int|
            0 <= j < es.len() && (#[trigger] es[j]) == autostart_only(es)[k] && es[j].autostart,
    decreases es.len(),
{
    if es.len() == 0 {
    } else {
        let rest = autostart_only(es.drop_last());
        if es.last().autostart && k == autostart_only(es).len() - 1 {
            assert(es[es.len() - 1] == autostart_only(es)[k]);
        } else {
            lemma_autostart_only_member(es.drop_last(), k);
            let j = choose|j: int|
                0 <= j < es.drop_last().len() && es.drop_last()[j] == autostart_only(
                    es.drop_last(),
                )[k] && es.drop_last()[j].autostart;
            assert(es[j] == autostart_only(es)[k]);
        }
    }
}

/// In a well-formed store the listing names each identifier at most once:
/// names are unique, and a readable entry is filed under its own name.
pub proof fn lemma_entries_unique(files: Seq<(Seq<char>, Seq<char>)>)
    requires
        unique_names(files),
        consistent_names(files),
    ensures
        forall|i: int, j: int|
            0 <= i < j < entries(files).len() ==> (#[trigger] entries(files)[i]).id != (
            #[trigger] entries(files)[j]).id,
        forall|k: int|
            0 <= k < entries(files).len() ==> has_file_named(
                files,
                entry_file_name((#[trigger] entries(files)[k]).id),
            ),
    decreases files.len(),
{
    if files.len() == 0 {
    } else {
        let rest = files.drop_last();
        assert(forall|x: int| 0 <= x < rest.len() ==> (#[trigger] rest[x]) == files[x]);
        lemma_entries_unique(rest);
        let es = entries(files);
        let er = entries(rest);
        match parse_entry(files.last().1) {
            None => {
                assert(es == er);
                assert forall|k: int| 0 <= k < es.len() implies has_file_named(
                    files,
                    entry_file_name((#[trigger] es[k]).id),
                ) by {
                    assert(es[k] == er[k]);
                    let f = choose|f: int|
                        0 <= f < rest.len() && (#[trigger] rest[f]).0 == entry_file_name(er[k].id);
                    assert(files[f].0 == entry_file_name(es[k].id));
                }
                assert forall|i: int, j: int|
                    0 <= i < j < es.len() implies (#[trigger] es[i]).id != (
                #[trigger] es[j]).id by {
                    assert(es[i] == er[i]);
                    assert(es[j] == er[j]);
                }
            },
            Some(m) => {
                assert(es == er.push(m));
                assert(files[files.len() - 1].0 == entry_file_name(m.id));
                assert forall|k: int| 0 <= k < es.len() implies has_file_named(
                    files,
                    entry_file_name((#[trigger] es[k]).id),
                ) by {
                    if k < es.len() - 1 {
                        assert(es[k] == er[k]);
                        let f = choose|f: int|
                            0 <= f < rest.len() && (#[trigger] rest[f]).0 == entry_file_name(
                                er[k].id,
                            );
                        assert(files[f].0 == entry_file_name(es[k].id));
                    } else {
                        assert(es[k] == m);
                        assert(files[files.len() - 1].0 == entry_file_name(es[k].id));
                    }
                }
                assert forall|i: int, j: int|
                    0 <= i < j < es.len() implies (#[trigger] es[i]).id != (
                #[trigger] es[j]).id by {
                    assert(es[i] == er[i]);
                    if j < es.len() - 1 {
                        assert(es[j] == er[j]);
                    } else {
                        assert(es[j] == m);
                        if er[i].id == m.id {
                            let f = choose|f: int|
                                0 <= f < rest.len() && (#[trigger] rest[f]).0 == entry_file_name(
                                    er[i].id,
                                );
                            assert(files[f].0 == files[files.len() - 1].0);
                        }
                    }
                }
            },
        }
    }
}

/// Round-trip law in the space-joined sense: after persisting any line-safe
/// entry, reading the same identifier yields an entry with the same
/// identifier, autostart bit and flags, whose command is the stored
/// space-joined command split back at spaces — so the joined command is
/// preserved even when words hold spaces.
pub proof fn lemma_put_get_round_trip_joined(sys: SystemModel, a: AppModel)
    requires
        sys.wf(),
        crate::app::line_safe(a),
    ensures
        ({
            let read = get_spec(
                SystemModel {
                    autostart_dir: sys.autostart_dir,
                    files: upsert(sys.files, entry_file_name(a.id), render(a)),
                },
                a.id,
            );
            read matches Ok(Some(b)) && {
                &&& b.id == a.id
                &&& b.autostart == a.autostart
                &&& b.flags == a.flags
                &&& b.cmd == crate::format::split_words(crate::format::join_words(a.cmd))
                &&& crate::format::join_words(b.cmd) == crate::format::join_words(a.cmd)
            }
        }),
{
    lemma_upsert_lookup(sys.files, entry_file_name(a.id), render(a));
    crate::format::lemma_render_parse_words(a);
    crate::format::lemma_join_split(crate::format::join_words(a.cmd));
}

// ---------------------------------------------------------------------------
// Process supervision
// ---------------------------------------------------------------------------

/// Relies on tokio::process::Child: the live handle of a spawned process.
/// The library only carries such handles; the spawn itself is an edge the
/// caller owns, because tokio's spawn aborts inside a runtime whose drivers
/// are disabled and no guard for that is writable here.
#[verifier::external_type_specification]
#[verifier::external_body]
pub struct ExChild(tokio::process::Child);

impl System {
    /// The launch request for `app`: the argv to hand the operating system,
    /// or `EmptyCommand` when there is no executable word. The caller
    /// performs the spawn — an edge this library does not own — and reports
    /// the outcome to the registry.
    pub fn start(&self, app: &App) -> (r: Result<Vec<String>, SpawnError>)
        ensures
            app@.cmd.len() == 0 ==> r == Err::<Vec<String>, SpawnError>(SpawnError::EmptyCommand),
            app@.cmd.len() >= 1 ==> (r matches Ok(argv) && argv.deep_view() == app@.cmd),
    {
        if app.cmd.len() == 0 {
            return Err(SpawnError::EmptyCommand);
        }
        let mut argv: Vec<String> = Vec::new();
        let mut i: usize = 0;
        let n = app.cmd.len();
        proof {
            assert(argv.deep_view() =~= app@.cmd.take(0));
        }
        while i < n
            invariant
                0 <= i <= n,
                n == app.cmd.len(),
                n == app@.cmd.len(),
                argv.deep_view() == app@.cmd.take(i as int),
            decreases n - i,
        {
            let ghost before = argv.deep_view();
            argv.push(app.cmd[i].clone());
            proof {
                assert(argv.deep_view() =~~= before.push(app@.cmd[i as int]));
                assert(app@.cmd.take(i + 1) =~= app@.cmd.take(i as int).push(
                    app@.cmd[i as int],
                ));
            }
            i = i + 1;
        }
        proof {
            assert(app@.cmd.take(n as int) =~= app@.cmd);
        }
        Ok(argv)
    }
}

} // verus!
