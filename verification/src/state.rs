//! Data model of the reconciliation engine: tracked windows, orphaned
//! processes, and the suppression ledger, together with their mathematical
//! views (finite maps keyed by window handle or process id).
//!
//! The maps are stored as vectors of key/value pairs with pairwise distinct
//! keys; `alist_map` gives the abstract `Map` such a vector denotes.

use vstd::prelude::*;

verus! {

// ---------------------------------------------------------------------------
// Association-list helpers
// ---------------------------------------------------------------------------

/// The finite map denoted by a sequence of key/value pairs; a later entry
/// with the same key overrides an earlier one.
pub open spec fn alist_map<V>(s: Seq<(u32, V)>) -> Map<u32, V>
    decreases s.len(),
{
    if s.len() == 0 {
        Map::empty()
    } else {
        alist_map(s.drop_last()).insert(s.last().0, s.last().1)
    }
}

/// All keys in the sequence are pairwise distinct.
pub open spec fn alist_unique<V>(s: Seq<(u32, V)>) -> bool {
    forall|i: int, j: int| 0 <= i < j < s.len() ==> (#[trigger] s[i]).0 != (#[trigger] s[j]).0
}

pub proof fn lemma_alist_dom<V>(s: Seq<(u32, V)>)
    ensures
        forall|k: u32| #![trigger alist_map(s).contains_key(k)]
            alist_map(s).contains_key(k) <==> exists|i: int|
                0 <= i < s.len() && (#[trigger] s[i]).0 == k,
    decreases s.len(),
{
    if s.len() > 0 {
        lemma_alist_dom(s.drop_last());
        assert forall|k: u32|
            alist_map(s).contains_key(k) == (exists|i: int|
                0 <= i < s.len() && (#[trigger] s[i]).0 == k) by {
            if alist_map(s).contains_key(k) {
                if k == s.last().0 {
                    assert(s[s.len() - 1].0 == k);
                } else {
                    assert(alist_map(s.drop_last()).contains_key(k));
                    let i = choose|i: int|
                        0 <= i < s.drop_last().len() && (#[trigger] s.drop_last()[i]).0 == k;
                    assert(s.drop_last()[i] == s[i]);
                    assert(s[i].0 == k);
                }
            }
            if exists|i: int| 0 <= i < s.len() && (#[trigger] s[i]).0 == k {
                let i = choose|i: int| 0 <= i < s.len() && (#[trigger] s[i]).0 == k;
                if i == s.len() - 1 {
                    assert(alist_map(s).contains_key(k));
                } else {
                    assert(s.drop_last()[i] == s[i]);
                    assert(s.drop_last()[i].0 == k);
                    assert(alist_map(s.drop_last()).contains_key(k));
                }
            }
        }
    }
}

pub proof fn lemma_alist_index<V>(s: Seq<(u32, V)>, i: int)
    requires
        alist_unique(s),
        0 <= i < s.len(),
    ensures
        alist_map(s).contains_key(s[i].0),
        alist_map(s)[s[i].0] == s[i].1,
    decreases s.len(),
{
    if i == s.len() - 1 {
    } else {
        assert(s.drop_last()[i] == s[i]);
        lemma_alist_index(s.drop_last(), i);
        assert(s[i].0 != s.last().0);
    }
}

pub proof fn lemma_alist_push<V>(s: Seq<(u32, V)>, k: u32, v: V)
    ensures
        alist_map(s.push((k, v))) == alist_map(s).insert(k, v),
{
    assert(s.push((k, v)).drop_last() =~= s);
}

pub proof fn lemma_alist_update<V>(s: Seq<(u32, V)>, i: int, v: V)
    requires
        alist_unique(s),
        0 <= i < s.len(),
    ensures
        alist_map(s.update(i, (s[i].0, v))) == alist_map(s).insert(s[i].0, v),
    decreases s.len(),
{
    let k = s[i].0;
    let u = s.update(i, (k, v));
    if i == s.len() - 1 {
        assert(u.drop_last() =~= s.drop_last());
        assert(u.last() == (k, v));
        assert(alist_map(u) == alist_map(s.drop_last()).insert(k, v));
        assert(alist_map(s.drop_last()).insert(k, s.last().1).insert(k, v) =~= alist_map(
            s.drop_last(),
        ).insert(k, v));
    } else {
        assert(u.drop_last() =~= s.drop_last().update(i, (k, v)));
        assert(s.drop_last()[i] == s[i]);
        lemma_alist_update(s.drop_last(), i, v);
        assert(u.last() == s.last());
        assert(k != s.last().0);
        assert(alist_map(s.drop_last()).insert(k, v).insert(s.last().0, s.last().1)
            =~= alist_map(s.drop_last()).insert(s.last().0, s.last().1).insert(k, v));
    }
}

pub proof fn lemma_push_contains<V>(s: Seq<V>, v: V)
    ensures
        forall|x: V| #![trigger s.push(v).contains(x)]
            s.push(v).contains(x) <==> s.contains(x) || x == v,
{
    assert forall|x: V| #![trigger s.push(v).contains(x)]
        s.push(v).contains(x) <==> s.contains(x) || x == v by {
        if s.push(v).contains(x) {
            let i = choose|i: int| 0 <= i < s.push(v).len() && s.push(v)[i] == x;
            if i < s.len() {
                assert(s[i] == x);
            }
        }
        if s.contains(x) {
            let i = choose|i: int| 0 <= i < s.len() && s[i] == x;
            assert(s.push(v)[i] == x);
        }
        assert(s.push(v)[s.len() as int] == v);
    }
}

// ---------------------------------------------------------------------------
// Exec lookup over an association vector
// ---------------------------------------------------------------------------

/// Index of the first entry with the given key, if any.
pub fn alist_find<V>(v: &Vec<(u32, V)>, key: u32) -> (r: Option<usize>)
    ensures
        match r {
            Some(i) => i < v@.len() && v@[i as int].0 == key,
            None => forall|i: int| 0 <= i < v@.len() ==> (#[trigger] v@[i]).0 != key,
        },
{
    let mut i: usize = 0;
    while i < v.len()
        invariant
            i <= v@.len(),
            forall|j: int| 0 <= j < i ==> (#[trigger] v@[j]).0 != key,
        decreases v@.len() - i,
    {
        if v[i].0 == key {
            return Some(i);
        }
        i += 1;
    }
    None
}

// ---------------------------------------------------------------------------
// Window handles and per-window information
// ---------------------------------------------------------------------------

/// Opaque handle of a top-level window in the windowing system.
#[derive(Clone, Copy, Debug, Hash, PartialEq, Eq, Structural)]
pub struct XWindow(pub u32);

/// What one poll reports about a window that is being tracked.
#[derive(Debug)]
pub struct WindowInfo {
    /// Owning process ids; usually zero or one element, never repeated.
    pub pids: Vec<u32>,
    /// Whether the window advertises the polite-close protocol.
    pub supports_delete: bool,
    /// Window class name.
    pub class: String,
    /// Window title.
    pub title: String,
}

/// Mathematical view of a `WindowInfo`.
#[verifier::ext_equal]
pub struct WinView {
    pub pids: Set<u32>,
    pub supports_delete: bool,
    pub class: Seq<char>,
    pub title: Seq<char>,
}

impl View for WindowInfo {
    type V = WinView;

    open spec fn view(&self) -> WinView {
        WinView {
            pids: self.pids@.to_set(),
            supports_delete: self.supports_delete,
            class: self.class@,
            title: self.title@,
        }
    }
}

/// Largest value the process signal interface accepts as a process id.
pub const PID_LIMIT: u32 = 0x7fff_ffff;

impl WindowInfo {
    /// No repeated pid, and every pid small enough to signal.
    pub open spec fn wf(&self) -> bool {
        &&& forall|i: int, j: int|
            0 <= i < j < self.pids@.len() ==> self.pids@[i] != self.pids@[j]
        &&& forall|i: int| 0 <= i < self.pids@.len() ==> (#[trigger] self.pids@[i]) <= PID_LIMIT
    }

    /// A verified deep copy: the result denotes the same view.
    pub fn duplicate(&self) -> (r: WindowInfo)
        ensures
            r@ == self@,
            r.pids@ == self.pids@,
            self.wf() ==> r.wf(),
    {
        let mut pids: Vec<u32> = Vec::new();
        let mut i: usize = 0;
        while i < self.pids.len()
            invariant
                i <= self.pids@.len(),
                pids@ == self.pids@.subrange(0, i as int),
            decreases self.pids@.len() - i,
        {
            pids.push(self.pids[i]);
            i += 1;
        }
        assert(pids@ =~= self.pids@);
        let r = WindowInfo {
            pids,
            supports_delete: self.supports_delete,
            class: self.class.clone(),
            title: self.title.clone(),
        };
        assert(r@ =~= self@);
        r
    }
}

// ---------------------------------------------------------------------------
// Tracked state
// ---------------------------------------------------------------------------

/// Everything the reconciler tracks between polls: windows that are still
/// open, and processes whose window has closed but which have not been
/// confirmed dead.
#[derive(Debug)]
pub struct TrackedState {
    /// Window handle id -> what was last read about that window.
    pub windows: Vec<(u32, WindowInfo)>,
    /// Orphaned process id -> class/title inherited from its former window.
    pub orphans: Vec<(u32, WindowInfo)>,
}

/// Mathematical view of a `TrackedState`.
#[verifier::ext_equal]
pub struct StateView {
    pub windows: Map<u32, WinView>,
    pub orphans: Map<u32, WinView>,
}

pub open spec fn info_entries(s: Seq<(u32, WindowInfo)>) -> Seq<(u32, WinView)> {
    s.map_values(|p: (u32, WindowInfo)| (p.0, p.1@))
}

pub open spec fn info_map(s: Seq<(u32, WindowInfo)>) -> Map<u32, WinView> {
    alist_map(info_entries(s))
}

impl View for TrackedState {
    type V = StateView;

    open spec fn view(&self) -> StateView {
        StateView { windows: info_map(self.windows@), orphans: info_map(self.orphans@) }
    }
}

impl TrackedState {
    pub open spec fn wf(&self) -> bool {
        &&& alist_unique(info_entries(self.windows@))
        &&& alist_unique(info_entries(self.orphans@))
        &&& forall|i: int|
            0 <= i < self.windows@.len() ==> (#[trigger] self.windows@[i]).1.wf()
        &&& forall|i: int|
            0 <= i < self.orphans@.len() ==> (#[trigger] self.orphans@[i]).1.wf()
        &&& forall|i: int|
            0 <= i < self.orphans@.len() ==> (#[trigger] self.orphans@[i]).0 <= PID_LIMIT
    }

    /// The sole normal-exit condition: nothing tracked, nothing orphaned.
    pub open spec fn spec_is_empty(&self) -> bool {
        self@.windows.dom() =~= Set::<u32>::empty() && self@.orphans.dom() =~= Set::<u32>::empty()
    }

    pub fn new() -> (r: TrackedState)
        ensures
            r.wf(),
            r@.windows =~= Map::<u32, WinView>::empty(),
            r@.orphans =~= Map::<u32, WinView>::empty(),
    {
        let r = TrackedState { windows: Vec::new(), orphans: Vec::new() };
        proof {
            assert(info_entries(r.windows@) =~= Seq::<(u32, WinView)>::empty());
            assert(info_entries(r.orphans@) =~= Seq::<(u32, WinView)>::empty());
        }
        r
    }

    /// True when both the window map and the orphan map are empty.
    pub fn is_empty(&self) -> (r: bool)
        ensures
            r == self.spec_is_empty(),
    {
        proof {
            lemma_alist_dom(info_entries(self.windows@));
            lemma_alist_dom(info_entries(self.orphans@));
            if self.windows@.len() > 0 {
                assert(info_entries(self.windows@)[0].0 == self.windows@[0].0);
                assert(info_map(self.windows@).contains_key(self.windows@[0].0));
            } else {
                assert(forall|k: u32| !info_map(self.windows@).contains_key(k));
            }
            if self.orphans@.len() > 0 {
                assert(info_entries(self.orphans@)[0].0 == self.orphans@[0].0);
                assert(info_map(self.orphans@).contains_key(self.orphans@[0].0));
            } else {
                assert(forall|k: u32| !info_map(self.orphans@).contains_key(k));
            }
        }
        self.windows.len() == 0 && self.orphans.len() == 0
    }
}

// ---------------------------------------------------------------------------
// Suppression ledger
// ---------------------------------------------------------------------------

/// Permanent record of windows and processes that failed to answer queries;
/// they are skipped on later polls instead of being retried.
#[derive(Debug)]
pub struct Hatred {
    /// Window handle id -> why it was suppressed.
    pub blacklisted_windows: Vec<(u32, String)>,
    /// Process id -> why it was suppressed.
    pub blacklisted_pids: Vec<(u32, String)>,
}

/// Mathematical view of the suppression ledger.
#[verifier::ext_equal]
pub struct HatredView {
    pub windows: Map<u32, Seq<char>>,
    pub pids: Map<u32, Seq<char>>,
}

pub open spec fn reason_entries(s: Seq<(u32, String)>) -> Seq<(u32, Seq<char>)> {
    s.map_values(|p: (u32, String)| (p.0, p.1@))
}

pub open spec fn reason_map(s: Seq<(u32, String)>) -> Map<u32, Seq<char>> {
    alist_map(reason_entries(s))
}

impl View for Hatred {
    type V = HatredView;

    open spec fn view(&self) -> HatredView {
        HatredView {
            windows: reason_map(self.blacklisted_windows@),
            pids: reason_map(self.blacklisted_pids@),
        }
    }
}

impl Hatred {
    pub open spec fn wf(&self) -> bool {
        &&& alist_unique(reason_entries(self.blacklisted_windows@))
        &&& alist_unique(reason_entries(self.blacklisted_pids@))
    }

    pub fn new() -> (r: Hatred)
        ensures
            r.wf(),
            r@.windows =~= Map::<u32, Seq<char>>::empty(),
            r@.pids =~= Map::<u32, Seq<char>>::empty(),
    {
        let r = Hatred { blacklisted_windows: Vec::new(), blacklisted_pids: Vec::new() };
        proof {
            assert(reason_entries(r.blacklisted_windows@) =~= Seq::<(u32, Seq<char>)>::empty());
            assert(reason_entries(r.blacklisted_pids@) =~= Seq::<(u32, Seq<char>)>::empty());
        }
        r
    }

    pub fn is_window_suppressed(&self, window: XWindow) -> (r: bool)
        ensures
            r == self@.windows.contains_key(window.0),
    {
        proof {
            lemma_alist_dom(reason_entries(self.blacklisted_windows@));
        }
        let found = alist_find(&self.blacklisted_windows, window.0);
        proof {
            if let Some(i) = found {
                assert(reason_entries(self.blacklisted_windows@)[i as int].0
                    == self.blacklisted_windows@[i as int].0);
            } else {
                assert forall|i: int| 0 <= i < reason_entries(self.blacklisted_windows@).len()
                    implies (#[trigger] reason_entries(self.blacklisted_windows@)[i]).0
                    != window.0 by {
                    assert(self.blacklisted_windows@[i].0 != window.0);
                }
            }
        }
        found.is_some()
    }

    pub fn is_pid_suppressed(&self, pid: u32) -> (r: bool)
        ensures
            r == self@.pids.contains_key(pid),
    {
        proof {
            lemma_alist_dom(reason_entries(self.blacklisted_pids@));
        }
        let found = alist_find(&self.blacklisted_pids, pid);
        proof {
            if let Some(i) = found {
                assert(reason_entries(self.blacklisted_pids@)[i as int].0
                    == self.blacklisted_pids@[i as int].0);
            } else {
                assert forall|i: int| 0 <= i < reason_entries(self.blacklisted_pids@).len()
                    implies (#[trigger] reason_entries(self.blacklisted_pids@)[i]).0 != pid by {
                    assert(self.blacklisted_pids@[i].0 != pid);
                }
            }
        }
        found.is_some()
    }

    /// Record a window as permanently unreliable; no effect if it already is.
    pub fn suppress_window(&mut self, window: XWindow, reason: String)
        requires
            old(self).wf(),
        ensures
            final(self).wf(),
            final(self)@.windows == if old(self)@.windows.contains_key(window.0) {
                old(self)@.windows
            } else {
                old(self)@.windows.insert(window.0, reason@)
            },
            final(self)@.pids == old(self)@.pids,
    {
        if !self.is_window_suppressed(window) {
            proof {
                lemma_alist_dom(reason_entries(self.blacklisted_windows@));
                lemma_alist_push(reason_entries(self.blacklisted_windows@), window.0, reason@);
            }
            let ghost pre = self.blacklisted_windows@;
            self.blacklisted_windows.push((window.0, reason));
            proof {
                assert(reason_entries(self.blacklisted_windows@) =~= reason_entries(pre).push(
                    (window.0, reason@),
                ));
            }
        }
    }

    /// Record a process id as permanently unreliable; no effect if it already is.
    pub fn suppress_pid(&mut self, pid: u32, reason: String)
        requires
            old(self).wf(),
        ensures
            final(self).wf(),
            final(self)@.pids == if old(self)@.pids.contains_key(pid) {
                old(self)@.pids
            } else {
                old(self)@.pids.insert(pid, reason@)
            },
            final(self)@.windows == old(self)@.windows,
    {
        if !self.is_pid_suppressed(pid) {
            proof {
                lemma_alist_dom(reason_entries(self.blacklisted_pids@));
                lemma_alist_push(reason_entries(self.blacklisted_pids@), pid, reason@);
            }
            let ghost pre = self.blacklisted_pids@;
            self.blacklisted_pids.push((pid, reason));
            proof {
                assert(reason_entries(self.blacklisted_pids@) =~= reason_entries(pre).push(
                    (pid, reason@),
                ));
            }
        }
    }
}

} // verus!
