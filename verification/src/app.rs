use vstd::prelude::*;

verus! {

/// One persisted registration record: a background application that may be
/// launched at service startup.
#[derive(Debug)]
pub struct App {
    /// Stable application identifier; primary key of the entry store.
    pub id: String,
    /// Whether the entry should be launched when the service starts.
    pub autostart: bool,
    /// Argument vector; the first element is the executable.
    pub cmd: Vec<String>,
    /// Opaque caller-supplied bits, round-tripped without interpretation.
    pub flags: u32,
}

/// Mathematical model of an `App`.
pub struct AppModel {
    pub id: Seq<char>,
    pub autostart: bool,
    pub cmd: Seq<Seq<char>>,
    pub flags: u32,
}

impl View for App {
    type V = AppModel;

    open spec fn view(&self) -> AppModel {
        AppModel {
            id: self.id@,
            autostart: self.autostart,
            cmd: self.cmd.deep_view(),
            flags: self.flags,
        }
    }
}

impl DeepView for App {
    type V = AppModel;

    open spec fn deep_view(&self) -> AppModel {
        self.view()
    }
}

/// Copies a word list, word for word.
pub(crate) fn clone_words(words: &Vec<String>) -> (r: Vec<String>)
    ensures
        r.deep_view() == words.deep_view(),
{
    let ghost ws = words.deep_view();
    let mut out: Vec<String> = Vec::new();
    let mut i: usize = 0;
    let n = words.len();
    proof {
        assert(out.deep_view() =~= ws.take(0));
    }
    while i < n
        invariant
            0 <= i <= n,
            n == words.len(),
            ws == words.deep_view(),
            n == ws.len(),
            out.deep_view() == ws.take(i as int),
        decreases n - i,
    {
        let ghost before = out.deep_view();
        out.push(words[i].clone());
        proof {
            assert(out.deep_view() =~~= before.push(ws[i as int]));
            assert(ws.take(i + 1) =~= ws.take(i as int).push(ws[i as int]));
        }
        i = i + 1;
    }
    proof {
        assert(ws.take(n as int) =~= ws);
    }
    out
}

impl Clone for App {
    /// A field-for-field copy with the same model.
    fn clone(&self) -> (r: App)
        ensures
            r@ == self@,
    {
        App {
            id: self.id.clone(),
            autostart: self.autostart,
            cmd: clone_words(&self.cmd),
            flags: self.flags,
        }
    }
}

/// Entries whose fields fit the line-oriented file format: the identifier
/// and every command word free of newlines, and the command non-empty. The
/// `Exec` line of such an entry reads back space-split, so the space-joined
/// command is preserved; `storable` entries are recovered word for word.
pub open spec fn line_safe(a: AppModel) -> bool {
    &&& !a.id.contains('\n')
    &&& a.cmd.len() >= 1
    &&& forall|i: int| 0 <= i < a.cmd.len() ==> !(#[trigger] a.cmd[i]).contains('\n')
}

/// The entries that the entry-file format represents faithfully, word for
/// word: line-safe, and no command word holds a space.
pub open spec fn storable(a: AppModel) -> bool {
    &&& line_safe(a)
    &&& forall|i: int| 0 <= i < a.cmd.len() ==> !(#[trigger] a.cmd[i]).contains(' ')
}

} // verus!
