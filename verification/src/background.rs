use vstd::prelude::*;

use crate::app::{storable, App, AppModel};
use crate::format::render;
use crate::system::{
    autostart_only, entries, entry_file_name, get_spec, lemma_autostart_only_member,
    lemma_name_index, lookup, name_index, upsert, SpawnError, StoreError, System, SystemModel,
};

verus! {

/// The fixed state code reported for every known application: run-state
/// detail is not modeled beyond existence.
pub const APP_STATE_CODE: u32 = 0;

/// The fixed non-granting result code of the consent prompt stub.
pub const NOTIFY_NOT_GRANTED: u32 = 2;

/// A failure surfaced to the remote caller as a generic operation fault,
/// never exposing internal error detail.
#[derive(Debug, PartialEq, Eq, Structural)]
pub enum BusFault {
    /// The registry could not read the store for the requested identifier.
    Failed,
}

/// What a registration asks of its caller: the store-facing half of
/// `enable_autostart` owns no spawn, so a launch is handed out and its
/// outcome handed back.
#[derive(Debug, PartialEq, Eq)]
pub enum Registration {
    /// The identifier was already stored: the existing entry wins and the
    /// request is complete and granted.
    AlreadyRegistered,
    /// The entry was persisted but holds no executable word: the request is
    /// complete and not granted.
    Unlaunchable,
    /// The entry was persisted: attempt to launch this argv and hand the
    /// outcome to `launch_outcome`, whose answer completes the request.
    Launch(Vec<String>),
}

/// An identifier the store knows: some readable stored entry carries it.
pub open spec fn known(files: Seq<(Seq<char>, Seq<char>)>, id: Seq<char>) -> bool {
    exists|k: int| 0 <= k < entries(files).len() && (#[trigger] entries(files)[k]).id == id
}

/// An identifier that some readable stored entry marked autostart carries.
pub open spec fn known_autostart(files: Seq<(Seq<char>, Seq<char>)>, id: Seq<char>) -> bool {
    exists|k: int|
        0 <= k < entries(files).len() && (#[trigger] entries(files)[k]).id == id && entries(
            files,
        )[k].autostart
}

/// A file appended to the store keeps every already-known identifier known.
pub proof fn lemma_push_keeps_known(
    files: Seq<(Seq<char>, Seq<char>)>,
    f: (Seq<char>, Seq<char>),
    id: Seq<char>,
)
    requires
        known(files, id),
    ensures
        known(files.push(f), id),
{
    assert(files.push(f).drop_last() =~= files);
    let k = choose|k: int| 0 <= k < entries(files).len() && entries(files)[k].id == id;
    match crate::format::parse_entry(f.1) {
        Some(m) => {
            assert(entries(files.push(f)) == entries(files).push(m));
            assert(entries(files.push(f))[k] == entries(files)[k]);
        },
        None => {
            assert(entries(files.push(f)) == entries(files));
        },
    }
}

/// A readable file appended to the store makes its identifier known.
pub proof fn lemma_push_readable_known(
    files: Seq<(Seq<char>, Seq<char>)>,
    f: (Seq<char>, Seq<char>),
    m: AppModel,
)
    requires
        crate::format::parse_entry(f.1) == Some(m),
    ensures
        known(files.push(f), m.id),
{
    assert(files.push(f).drop_last() =~= files);
    let es = entries(files.push(f));
    assert(es == entries(files).push(m));
    assert(es[es.len() - 1].id == m.id);
}

/// Mathematical model of the registry: the store, the identifiers of the
/// tracked running processes in tracking order, and whether the running set
/// changed since the change notification was last taken.
pub struct BackgroundModel {
    pub system: SystemModel,
    pub running: Seq<Seq<char>>,
    pub changed: bool,
}

impl BackgroundModel {
    /// Well-formed registry: a well-formed store.
    pub open spec fn wf(self) -> bool {
        self.system.wf()
    }

    /// Nothing is tracked twice, and nothing runs that the store does not
    /// know: the running set is a subset of the stored identifiers.
    pub open spec fn sound(self) -> bool {
        &&& forall|i: int, j: int|
            0 <= i < j < self.running.len() ==> (#[trigger] self.running[i]) != (
            #[trigger] self.running[j])
        &&& forall|i: int|
            0 <= i < self.running.len() ==> known(self.system.files, #[trigger] self.running[i])
    }
}

/// The running set after tracking `id`: unchanged when already tracked,
/// otherwise extended at the end.
pub open spec fn track_model(running: Seq<Seq<char>>, id: Seq<char>) -> Seq<Seq<char>> {
    if running.contains(id) {
        running
    } else {
        running.push(id)
    }
}

/// The registry and portal surface: owns the entry store and the handles of
/// the running processes, and answers the bus-facing operations.
pub struct Background {
    system: System,
    process: Vec<(String, tokio::process::Child)>,
    changed: bool,
}

impl View for Background {
    type V = BackgroundModel;

    closed spec fn view(&self) -> BackgroundModel {
        BackgroundModel {
            system: self.system@,
            running: Seq::new(self.process@.len(), |i: int| self.process@[i].0@),
            changed: self.changed,
        }
    }
}

impl Background {
    /// A registry over `system`, tracking nothing yet.
    pub fn new(system: System) -> (r: Background)
        requires
            system@.wf(),
        ensures
            r@.system == system@,
            r@.running == Seq::<Seq<char>>::empty(),
            r@.changed == false,
            r@.wf(),
            r@.sound(),
    {
        let r = Background { system, process: Vec::new(), changed: false };
        proof {
            assert(r@.running =~= Seq::<Seq<char>>::empty());
        }
        r
    }

    /// The identifiers of the tracked running processes, in tracking order.
    pub fn running_ids(&self) -> (r: Vec<String>)
        ensures
            r.deep_view() == self@.running,
    {
        let mut out: Vec<String> = Vec::new();
        let mut i: usize = 0;
        let n = self.process.len();
        proof {
            assert(out.deep_view() =~= self@.running.take(0));
        }
        while i < n
            invariant
                0 <= i <= n,
                n == self.process.len(),
                n == self@.running.len(),
                out.deep_view() == self@.running.take(i as int),
            decreases n - i,
        {
            let ghost before = out.deep_view();
            out.push(self.process[i].0.clone());
            proof {
                assert(out.deep_view() =~~= before.push(self@.running[i as int]));
                assert(self@.running.take(i + 1) =~= self@.running.take(i as int).push(
                    self@.running[i as int],
                ));
            }
            i = i + 1;
        }
        proof {
            assert(self@.running.take(n as int) =~= self@.running);
        }
        out
    }

    /// Whether `id` is tracked as running.
    pub fn is_running(&self, id: &str) -> (r: bool)
        ensures
            r == self@.running.contains(id@),
    {
        let wanted = String::from_str(id);
        let mut i: usize = 0;
        let n = self.process.len();
        while i < n
            invariant
                0 <= i <= n,
                n == self.process.len(),
                n == self@.running.len(),
                wanted@ == id@,
                forall|j: int| 0 <= j < i ==> self@.running[j] != id@,
            decreases n - i,
        {
            let hit = self.process[i].0 == wanted;
            if hit {
                proof {
                    assert(self@.running[i as int] == id@);
                }
                return true;
            }
            i = i + 1;
        }
        proof {
            if self@.running.contains(id@) {
                let j = choose|j: int| 0 <= j < self@.running.len() && self@.running[j] == id@;
            }
        }
        false
    }

    /// Takes the pending change notification: whether the running set has
    /// changed since the last take. The caller emits the bus signal.
    pub fn take_running_changed(&mut self) -> (r: bool)
        ensures
            r == old(self)@.changed,
            final(self)@.system == old(self)@.system,
            final(self)@.running == old(self)@.running,
            final(self)@.changed == false,
    {
        let r = self.changed;
        self.changed = false;
        r
    }

    /// Remembers `child` as the running process of `id`. An identifier that
    /// is already tracked keeps its earlier handle.
    fn track(&mut self, id: String, child: tokio::process::Child)
        ensures
            final(self)@.system == old(self)@.system,
            final(self)@.running == track_model(old(self)@.running, id@),
            final(self)@.changed == (old(self)@.changed || !old(self)@.running.contains(id@)),
            (old(self)@.sound() && known(old(self)@.system.files, id@)) ==> final(self)@.sound(),
    {
        let mut i: usize = 0;
        let n = self.process.len();
        while i < n
            invariant
                0 <= i <= n,
                n == self.process.len(),
                self@ == old(self)@,
                n == self@.running.len(),
                forall|j: int| 0 <= j < i ==> self@.running[j] != id@,
            decreases n - i,
        {
            let hit = self.process[i].0 == id;
            if hit {
                proof {
                    assert(old(self)@.running[i as int] == id@);
                }
                return ;
            }
            i = i + 1;
        }
        proof {
            if old(self)@.running.contains(id@) {
                let j = choose|j: int|
                    0 <= j < old(self)@.running.len() && old(self)@.running[j] == id@;
            }
        }
        self.process.push((id, child));
        self.changed = true;
        proof {
            let before = old(self)@.running;
            let after = self@.running;
            assert(after =~= before.push(id@));
            if old(self)@.sound() && known(old(self)@.system.files, id@) {
                assert forall|p: int, q: int|
                    0 <= p < q < after.len() implies (#[trigger] after[p]) != (
                #[trigger] after[q]) by {
                    if q == after.len() - 1 {
                        assert(after[p] == before[p]);
                        assert(before.contains(before[p]));
                    }
                }
                assert forall|p: int| 0 <= p < after.len() implies known(
                    self@.system.files,
                    #[trigger] after[p],
                ) by {
                    if p < after.len() - 1 {
                        assert(after[p] == before[p]);
                    }
                }
            }
        }
    }

    /// The launch plan at startup: every stored autostart entry, in store
    /// order. The caller attempts each launch — an edge this library does
    /// not own — and reports each outcome to `launch_outcome`; a failed
    /// launch never aborts the rest of the plan.
    pub fn startup_plan(&self) -> (r: Result<Vec<App>, StoreError>)
        ensures
            ({
                let plan = autostart_only(entries(self@.system.files));
                r matches Ok(v) && {
                    &&& v.deep_view() == plan
                    &&& forall|k: int|
                        0 <= k < plan.len() ==> known_autostart(
                            self@.system.files,
                            (#[trigger] plan[k]).id,
                        )
                }
            }),
    {
        let apps = match self.system.list_apps() {
            Ok(v) => v,
            Err(e) => {
                return Err(e);
            },
        };
        let ghost es = entries(self@.system.files);
        let mut out: Vec<App> = Vec::new();
        let mut i: usize = 0;
        let n = apps.len();
        proof {
            assert(apps.deep_view().len() == es.len());
            assert(es.take(0) =~= Seq::<AppModel>::empty());
            assert(out.deep_view() =~= autostart_only(es.take(0)));
        }
        while i < n
            invariant
                0 <= i <= n,
                n == apps.len(),
                apps.deep_view() == es,
                es == entries(self@.system.files),
                out.deep_view() == autostart_only(es.take(i as int)),
            decreases n - i,
        {
            let ghost before = out.deep_view();
            proof {
                assert(es.take(i + 1).drop_last() =~= es.take(i as int));
                assert(es.take(i + 1).last() == es[i as int]);
                assert(apps.deep_view()[i as int] == apps@[i as int].deep_view());
            }
            if apps[i].autostart {
                out.push(apps[i].clone());
                proof {
                    assert(out.deep_view() =~~= before.push(es[i as int]));
                }
            }
            i = i + 1;
        }
        proof {
            assert(es.take(n as int) =~= es);
            assert forall|k: int| 0 <= k < autostart_only(es).len() implies known_autostart(
                self@.system.files,
                (#[trigger] autostart_only(es)[k]).id,
            ) by {
                lemma_autostart_only_member(es, k);
                let j = choose|j: int|
                    0 <= j < es.len() && (#[trigger] es[j]) == autostart_only(es)[k]
                        && es[j].autostart;
                assert(entries(self@.system.files)[j].id == autostart_only(es)[k].id);
                assert(entries(self@.system.files)[j].autostart);
            }
        }
        Ok(out)
    }

    /// Records the outcome of the launch the caller attempted for `app_id`:
    /// a live child is tracked — raising the change flag when the
    /// identifier is newly running — and the attempt is granted; a failed
    /// launch changes nothing and is not granted.
    pub fn launch_outcome(
        &mut self,
        app_id: String,
        outcome: Result<tokio::process::Child, SpawnError>,
    ) -> (granted: bool)
        ensures
            final(self)@.system == old(self)@.system,
            final(self)@.wf() == old(self)@.wf(),
            match outcome {
                Ok(_) => {
                    &&& granted
                    &&& final(self)@.running == track_model(old(self)@.running, app_id@)
                    &&& final(self)@.changed == (old(self)@.changed || !old(self)@.running.contains(app_id@))
                },
                Err(_) => {
                    &&& !granted
                    &&& final(self)@.running == old(self)@.running
                    &&& final(self)@.changed == old(self)@.changed
                },
            },
            (old(self)@.sound() && known(old(self)@.system.files, app_id@))
                ==> final(self)@.sound(),
    {
        match outcome {
            Ok(child) => {
                self.track(app_id, child);
                true
            },
            Err(_) => false,
        }
    }

    /// Registers `app_id`. An already-stored identifier is left untouched:
    /// the existing entry wins and the new arguments are discarded. An
    /// unreadable stored entry is a fault. A new identifier is persisted —
    /// a persistence refusal is logged away, never failing the call — and
    /// the caller is asked to attempt the launch; the entry stays persisted
    /// whether or not that launch succeeds.
    pub fn enable_autostart(
        &mut self,
        app_id: String,
        enable: bool,
        cmd: Vec<String>,
        flags: u32,
    ) -> (r: Result<Registration, BusFault>)
        requires
            old(self)@.wf(),
        ensures
            final(self)@.wf(),
            final(self)@.running == old(self)@.running,
            final(self)@.changed == old(self)@.changed,
            ({
                let sys = old(self)@.system;
                let m = AppModel { id: app_id@, autostart: enable, cmd: cmd.deep_view(), flags };
                match get_spec(sys, app_id@) {
                    Ok(Some(_)) => r == Ok::<Registration, BusFault>(
                        Registration::AlreadyRegistered,
                    ) && final(self)@.system == sys,
                    Err(_) => r == Err::<Registration, BusFault>(BusFault::Failed) && final(self)@.system == sys,
                    Ok(None) => {
                        &&& final(self)@.system.autostart_dir == sys.autostart_dir
                        &&& ({
                            let refused = match crate::format::parse_entry(render(m)) {
                                Some(p) => p.id != m.id,
                                None => false,
                            };
                            if refused {
                                final(self)@.system.files == sys.files
                            } else {
                                final(self)@.system.files == upsert(
                                    sys.files,
                                    entry_file_name(app_id@),
                                    render(m),
                                )
                            }
                        })
                        &&& (cmd.deep_view().len() == 0 ==> r == Ok::<Registration, BusFault>(
                            Registration::Unlaunchable,
                        ))
                        &&& (cmd.deep_view().len() >= 1 ==> (r matches Ok(
                            Registration::Launch(argv),
                        ) && argv.deep_view() == cmd.deep_view()))
                        &&& (storable(m) ==> known(final(self)@.system.files, app_id@))
                    },
                }
            }),
            old(self)@.sound() ==> final(self)@.sound(),
    {
        let ghost sys0 = old(self)@.system;
        let ghost m = AppModel { id: app_id@, autostart: enable, cmd: cmd.deep_view(), flags };
        let entry = App { id: app_id, autostart: enable, cmd, flags };
        proof {
            assert(entry@ == m);
        }
        match self.system.get_autostart(entry.id.as_str()) {
            Ok(Some(_)) => Ok(Registration::AlreadyRegistered),
            Ok(None) => {
                // A persistence refusal is observable only in the log.
                match self.system.add_autostart(&entry) {
                    Ok(_) => {},
                    Err(_) => {},
                }
                proof {
                    lemma_name_index(sys0.files, entry_file_name(m.id));
                    assert(name_index(sys0.files, entry_file_name(m.id)) < 0);
                    let refused = match crate::format::parse_entry(render(m)) {
                        Some(p) => p.id != m.id,
                        None => false,
                    };
                    if !refused {
                        assert(self@.system.files =~= sys0.files.push(
                            (entry_file_name(m.id), render(m)),
                        ));
                    }
                    assert(self@.running == old(self)@.running);
                    if old(self)@.sound() {
                        assert forall|p: int| 0 <= p < self@.running.len() implies known(
                            self@.system.files,
                            #[trigger] self@.running[p],
                        ) by {
                            assert(self@.running[p] == old(self)@.running[p]);
                            assert(known(sys0.files, old(self)@.running[p]));
                            if !refused {
                                lemma_push_keeps_known(
                                    sys0.files,
                                    (entry_file_name(m.id), render(m)),
                                    self@.running[p],
                                );
                            }
                        }
                        assert(self@.sound());
                    }
                    if storable(m) {
                        crate::format::lemma_render_parse(m);
                        lemma_push_readable_known(
                            sys0.files,
                            (entry_file_name(m.id), render(m)),
                            m,
                        );
                        assert(known(self@.system.files, m.id));
                    }
                }
                match self.system.start(&entry) {
                    Ok(argv) => Ok(Registration::Launch(argv)),
                    Err(_) => Ok(Registration::Unlaunchable),
                }
            },
            Err(_) => Err(BusFault::Failed),
        }
    }

    /// One `(identifier, state code)` pair for every readable stored entry,
    /// whatever its run state; the state code is the fixed placeholder.
    pub fn list_app_states(&self) -> (r: Result<Vec<(String, u32)>, StoreError>)
        ensures
            ({
                let es = entries(self@.system.files);
                r matches Ok(v) && {
                    &&& v@.len() == es.len()
                    &&& forall|i: int| 0 <= i < es.len() ==> (#[trigger] v@[i]).0@ == es[i].id
                    &&& forall|i: int| 0 <= i < es.len() ==> (#[trigger] v@[i]).1 == APP_STATE_CODE
                }
            }),
    {
        let apps = match self.system.list_apps() {
            Ok(v) => v,
            Err(e) => {
                return Err(e);
            },
        };
        let ghost es = entries(self@.system.files);
        let mut out: Vec<(String, u32)> = Vec::new();
        let mut i: usize = 0;
        let n = apps.len();
        proof {
            assert(apps.deep_view().len() == es.len());
        }
        while i < n
            invariant
                0 <= i <= n,
                n == apps.len(),
                apps.deep_view() == es,
                es == entries(self@.system.files),
                out@.len() == i,
                forall|k: int| 0 <= k < i ==> (#[trigger] out@[k]).0@ == es[k].id,
                forall|k: int| 0 <= k < i ==> (#[trigger] out@[k]).1 == APP_STATE_CODE,
            decreases n - i,
        {
            out.push((apps[i].id.clone(), APP_STATE_CODE));
            proof {
                assert(apps.deep_view()[i as int] == apps@[i as int].deep_view());
                assert(out@[i as int].0@ == es[i as int].id);
            }
            i = i + 1;
        }
        Ok(out)
    }

    /// Bus operation: the per-application state mapping; an internal store
    /// failure surfaces as a generic fault, with no partial result.
    pub fn get_app_state(&self) -> (r: Result<Vec<(String, u32)>, BusFault>)
        ensures
            ({
                let es = entries(self@.system.files);
                r matches Ok(v) && {
                    &&& v@.len() == es.len()
                    &&& forall|i: int| 0 <= i < es.len() ==> (#[trigger] v@[i]).0@ == es[i].id
                    &&& forall|i: int| 0 <= i < es.len() ==> (#[trigger] v@[i]).1 == APP_STATE_CODE
                }
            }),
    {
        match self.list_app_states() {
            Ok(v) => Ok(v),
            Err(_) => Err(BusFault::Failed),
        }
    }

    /// The full path and contents of the stored entry file for `app_id`,
    /// for a caller that mirrors the store onto a disk directory.
    pub fn entry_file(&self, app_id: &str) -> (r: Option<(String, String)>)
        ensures
            match r {
                Some(pair) => {
                    &&& pair.0@ == self@.system.autostart_dir + "/"@ + entry_file_name(app_id@)
                    &&& lookup(self@.system.files, entry_file_name(app_id@)) == Some(pair.1@)
                },
                None => lookup(self@.system.files, entry_file_name(app_id@)) is None,
            },
    {
        self.system.entry_file(app_id)
    }

    /// Bus operation: the consent prompt is a stub, so every request reports
    /// the fixed non-granting result code in its details.
    #[allow(unused_variables)]
    pub fn notify_background(&self, handle: &str, app_id: &str, name: &str) -> (r: (
        u32,
        Vec<(String, u32)>,
    ))
        ensures
            r.0 == 0,
            r.1@.len() == 1,
            r.1@[0].0@ == "result"@,
            r.1@[0].1 == NOTIFY_NOT_GRANTED,
    {
        let mut details: Vec<(String, u32)> = Vec::new();
        details.push((String::from_str("result"), NOTIFY_NOT_GRANTED));
        (0, details)
    }
}

} // verus!
