//! The reconciler: folds a fresh snapshot of open windows into the tracked
//! state, moves the still-live processes of vanished windows into the
//! orphan map,
//! suppresses windows and pids that failed to answer, and reports whether
//! anything worth telling the user changed.
//!
//! Reconciliation is a pure function of the previous state, the ledger, the
//! snapshot, and one table of liveness verdicts collected beforehand;
//! `reconcile_rel` is the relation every step satisfies.

use vstd::prelude::*;
use vstd::pervasive::unreached;

use crate::pattern::{any_match, pattern_views, any_apply, Config};
use crate::probe::{Liveness, LivenessTable};
use crate::state::{alist_unique, lemma_alist_dom, lemma_alist_index, lemma_alist_push,
    lemma_alist_update, lemma_push_contains, alist_find, info_entries, info_map, Hatred,
    HatredView, StateView, TrackedState, WinView, WindowInfo, XWindow, PID_LIMIT};

verus! {

// ---------------------------------------------------------------------------
// Raw snapshot records
// ---------------------------------------------------------------------------

/// What the windowing layer reports about one window in one poll. Reads that
/// failed are already folded into the record: a failed class read is `None`
/// (and suppresses the window), failed pid/title/protocol reads degrade to
/// an empty list, an empty title, and `false`.
pub struct RawWindow {
    pub window: XWindow,
    /// The window's class, or `None` if reading it failed.
    pub class: Option<String>,
    /// Owning process ids as reported; may repeat, may be empty.
    pub pids: Vec<u32>,
    /// The window's title; empty if reading it failed.
    pub title: String,
    /// Whether the window advertises the polite-close protocol.
    pub supports_delete: bool,
}

/// Mathematical view of a `RawWindow`.
pub struct RawView {
    pub window: u32,
    pub class: Option<Seq<char>>,
    pub pids: Seq<u32>,
    pub title: Seq<char>,
    pub supports_delete: bool,
}

impl View for RawWindow {
    type V = RawView;

    open spec fn view(&self) -> RawView {
        RawView {
            window: self.window.0,
            class: match self.class {
                Some(c) => Some(c@),
                None => None,
            },
            pids: self.pids@,
            title: self.title@,
            supports_delete: self.supports_delete,
        }
    }
}

pub open spec fn raw_views(s: Seq<RawWindow>) -> Seq<RawView> {
    s.map_values(|r: RawWindow| r@)
}

impl RawWindow {
    /// Every reported pid is small enough for the signal interface.
    pub open spec fn wf(&self) -> bool {
        forall|i: int| 0 <= i < self.pids@.len() ==> (#[trigger] self.pids@[i]) <= PID_LIMIT
    }
}

/// A well-formed snapshot: well-formed records, one per window.
pub open spec fn snapshot_wf(s: Seq<RawWindow>) -> bool {
    &&& forall|i: int| 0 <= i < s.len() ==> (#[trigger] s[i]).wf()
    &&& forall|i: int, j: int|
        0 <= i < j < s.len() ==> (#[trigger] s[i]).window.0 != (#[trigger] s[j]).window.0
}

// ---------------------------------------------------------------------------
// Suppression reasons
// ---------------------------------------------------------------------------

pub open spec fn reason_class_failed() -> Seq<char> {
    "read class failed"@
}

pub open spec fn reason_pid_dead() -> Seq<char> {
    "reported nonexistent pid"@
}

pub open spec fn reason_pid_err() -> Seq<char> {
    "reported erroring pid"@
}

fn reason_class_failed_string() -> (r: String)
    ensures
        r@ == reason_class_failed(),
{
    "read class failed".to_owned()
}

fn reason_pid_dead_string() -> (r: String)
    ensures
        r@ == reason_pid_dead(),
{
    "reported nonexistent pid".to_owned()
}

fn reason_pid_err_string() -> (r: String)
    ensures
        r@ == reason_pid_err(),
{
    "reported erroring pid".to_owned()
}

// ---------------------------------------------------------------------------
// Admission: filter one snapshot through the ledger and the verdicts
// ---------------------------------------------------------------------------

/// Fold one window's reported pids: a suppressed pid is dropped, an alive
/// one is kept, a dead or erroring one is dropped and newly suppressed.
pub open spec fn admit_pids(pids: Seq<u32>, hat: HatredView, live: Map<u32, Liveness>) -> (
    Set<u32>,
    HatredView,
)
    decreases pids.len(),
{
    if pids.len() == 0 {
        (Set::empty(), hat)
    } else {
        let rec = admit_pids(pids.drop_last(), hat, live);
        let acc = rec.0;
        let h = rec.1;
        let p = pids.last();
        if h.pids.contains_key(p) {
            (acc, h)
        } else if live[p] is Alive {
            (acc.insert(p), h)
        } else if live[p] is Dead {
            (acc, HatredView { windows: h.windows, pids: h.pids.insert(p, reason_pid_dead()) })
        } else {
            (acc, HatredView { windows: h.windows, pids: h.pids.insert(p, reason_pid_err()) })
        }
    }
}

/// Fold a whole snapshot: suppressed windows are dropped; a window whose
/// class could not be read is dropped and suppressed; a window whose class
/// matches the ignore list is dropped; everything else is admitted with its
/// surviving pids.
pub open spec fn admit_snap(
    snap: Seq<RawView>,
    hat: HatredView,
    ignore: Seq<Seq<char>>,
    live: Map<u32, Liveness>,
) -> (Map<u32, WinView>, HatredView)
    decreases snap.len(),
{
    if snap.len() == 0 {
        (Map::empty(), hat)
    } else {
        let rec = admit_snap(snap.drop_last(), hat, ignore, live);
        let m = rec.0;
        let h = rec.1;
        let r = snap.last();
        if h.windows.contains_key(r.window) {
            (m, h)
        } else {
            match r.class {
                None => (
                    m,
                    HatredView {
                        windows: h.windows.insert(r.window, reason_class_failed()),
                        pids: h.pids,
                    },
                ),
                Some(class) => {
                    if any_match(ignore, class) {
                        (m, h)
                    } else {
                        let pr = admit_pids(r.pids, h, live);
                        (
                            m.insert(
                                r.window,
                                WinView {
                                    pids: pr.0,
                                    supports_delete: r.supports_delete,
                                    class,
                                    title: r.title,
                                },
                            ),
                            pr.1,
                        )
                    }
                },
            }
        }
    }
}

/// The ledger only ever grows during admission, and admitted windows and
/// pids are never suppressed ones.
pub proof fn lemma_admit_pids_facts(pids: Seq<u32>, hat: HatredView, live: Map<u32, Liveness>)
    ensures
        ({
            let r = admit_pids(pids, hat, live);
            &&& r.1.windows == hat.windows
            &&& forall|p: u32|
                #[trigger] hat.pids.contains_key(p) ==> r.1.pids.contains_key(p) && r.1.pids[p]
                    == hat.pids[p]
            &&& forall|p: u32| #[trigger] r.0.contains(p) ==> !r.1.pids.contains_key(p)
            &&& forall|p: u32| #[trigger] r.0.contains(p) ==> pids.contains(p) && live[p] is Alive
            &&& forall|p: u32|
                #[trigger] r.1.pids.contains_key(p) ==> hat.pids.contains_key(p) || pids.contains(
                    p,
                )
            &&& forall|p: u32|
                #[trigger] r.1.pids.contains_key(p) && !hat.pids.contains_key(p) ==> !(live[p]
                    is Alive)
            &&& forall|p: u32|
                pids.contains(p) && !((#[trigger] live[p]) is Alive) ==> r.1.pids.contains_key(
                    p,
                )
        }),
    decreases pids.len(),
{
    if pids.len() > 0 {
        lemma_admit_pids_facts(pids.drop_last(), hat, live);
        let rec = admit_pids(pids.drop_last(), hat, live);
        let r = admit_pids(pids, hat, live);
        assert forall|p: u32| #[trigger] r.0.contains(p) implies pids.contains(p) && live[p]
            is Alive by {
            if rec.0.contains(p) {
                assert(pids.drop_last().contains(p));
                let i = choose|i: int| 0 <= i < pids.drop_last().len() && pids.drop_last()[i] == p;
                assert(pids[i] == p);
            } else {
                assert(p == pids.last());
                assert(pids[pids.len() - 1] == p);
            }
        }
        assert forall|p: u32| #[trigger] r.1.pids.contains_key(p) implies hat.pids.contains_key(p)
            || pids.contains(p) by {
            if rec.1.pids.contains_key(p) {
                if !hat.pids.contains_key(p) {
                    assert(pids.drop_last().contains(p));
                    let i = choose|i: int|
                        0 <= i < pids.drop_last().len() && pids.drop_last()[i] == p;
                    assert(pids[i] == p);
                }
            } else {
                assert(p == pids.last());
                assert(pids[pids.len() - 1] == p);
            }
        }
        assert forall|p: u32| #[trigger] r.0.contains(p) implies !r.1.pids.contains_key(p) by {
            if rec.0.contains(p) {
                assert(!rec.1.pids.contains_key(p));
                assert(live[p] is Alive);
            }
        }
        assert forall|p: u32|
            pids.contains(p) && !((#[trigger] live[p]) is Alive) implies r.1.pids.contains_key(
            p,
        ) by {
            let i = choose|i: int| 0 <= i < pids.len() && pids[i] == p;
            if i < pids.len() - 1 {
                assert(pids.drop_last()[i] == p);
                assert(pids.drop_last().contains(p));
                assert(rec.1.pids.contains_key(p));
            } else {
                assert(p == pids.last());
            }
        }
    }
}

/// All windows in the sequence are pairwise distinct.
pub open spec fn views_distinct(snap: Seq<RawView>) -> bool {
    forall|i: int, j: int|
        0 <= i < j < snap.len() ==> (#[trigger] snap[i]).window != (#[trigger] snap[j]).window
}

/// Same monotonicity facts for the whole-snapshot fold, plus: admitted
/// windows are never suppressed, their pid sets avoid the new ledger, and
/// every admitted window comes from the snapshot.
pub proof fn lemma_admit_snap_facts(
    snap: Seq<RawView>,
    hat: HatredView,
    ignore: Seq<Seq<char>>,
    live: Map<u32, Liveness>,
)
    requires
        views_distinct(snap),
    ensures
        ({
            let r = admit_snap(snap, hat, ignore, live);
            &&& forall|w: u32|
                #[trigger] hat.windows.contains_key(w) ==> r.1.windows.contains_key(w)
                    && r.1.windows[w] == hat.windows[w]
            &&& forall|p: u32|
                #[trigger] hat.pids.contains_key(p) ==> r.1.pids.contains_key(p) && r.1.pids[p]
                    == hat.pids[p]
            &&& forall|w: u32|
                #[trigger] r.0.contains_key(w) ==> exists|i: int|
                    0 <= i < snap.len() && (#[trigger] snap[i]).window == w
            &&& forall|w: u32| #[trigger] r.0.contains_key(w) ==> !r.1.windows.contains_key(w)
            &&& forall|w: u32, p: u32|
                #[trigger] r.0.contains_key(w) && #[trigger] r.0[w].pids.contains(p)
                    ==> !r.1.pids.contains_key(p) && live[p] is Alive
        }),
    decreases snap.len(),
{
    if snap.len() > 0 {
        assert forall|i: int, j: int|
            0 <= i < j < snap.drop_last().len() implies (#[trigger] snap.drop_last()[i]).window
            != (#[trigger] snap.drop_last()[j]).window by {
            assert(snap.drop_last()[i] == snap[i]);
            assert(snap.drop_last()[j] == snap[j]);
        }
        lemma_admit_snap_facts(snap.drop_last(), hat, ignore, live);
        let rec = admit_snap(snap.drop_last(), hat, ignore, live);
        let r = admit_snap(snap, hat, ignore, live);
        let last = snap.last();
        assert(snap[snap.len() - 1] == last);
        assert forall|w: u32| #[trigger] rec.0.contains_key(w) implies w != last.window by {
            let i = choose|i: int|
                0 <= i < snap.drop_last().len() && (#[trigger] snap.drop_last()[i]).window == w;
            assert(snap[i] == snap.drop_last()[i]);
            assert(snap[i].window != snap[snap.len() - 1].window);
        }
        assert forall|w: u32| #[trigger] r.0.contains_key(w) implies exists|i: int|
            0 <= i < snap.len() && (#[trigger] snap[i]).window == w by {
            if rec.0.contains_key(w) {
                let i = choose|i: int|
                    0 <= i < snap.drop_last().len() && (#[trigger] snap.drop_last()[i]).window
                        == w;
                assert(snap[i] == snap.drop_last()[i]);
                assert(snap[i].window == w);
            } else {
                assert(snap[snap.len() - 1].window == w);
            }
        }
        if !rec.1.windows.contains_key(last.window) && last.class is Some && !any_match(
            ignore,
            last.class->Some_0,
        ) {
            lemma_admit_pids_facts(last.pids, rec.1, live);
            let pr = admit_pids(last.pids, rec.1, live);
            assert forall|w: u32, p: u32|
                #[trigger] r.0.contains_key(w) && #[trigger] r.0[w].pids.contains(p) implies !r
                .1.pids.contains_key(p) && live[p] is Alive by {
                if w == last.window {
                    assert(r.0[w] == WinView {
                        pids: pr.0,
                        supports_delete: last.supports_delete,
                        class: last.class->Some_0,
                        title: last.title,
                    });
                    assert(pr.0.contains(p));
                } else {
                    assert(rec.0.contains_key(w));
                    assert(r.0[w] == rec.0[w]);
                    assert(rec.0[w].pids.contains(p));
                    assert(!rec.1.pids.contains_key(p));
                    assert(live[p] is Alive);
                    assert(!pr.1.pids.contains_key(p));
                }
            }
            assert forall|w: u32| #[trigger] r.0.contains_key(w) implies !r.1.windows.contains_key(
                w,
            ) by {
                if w == last.window {
                    assert(pr.1.windows == rec.1.windows);
                } else {
                    assert(rec.0.contains_key(w));
                }
            }
        }
    }
}

/// Every pid a snapshot record reports, unless already suppressed, has a
/// verdict in the liveness table.
pub open spec fn snap_pids_covered(
    snap: Seq<RawWindow>,
    hat: HatredView,
    live: Map<u32, Liveness>,
) -> bool {
    forall|i: int, j: int|
        0 <= i < snap.len() && 0 <= j < snap[i].pids@.len() && !hat.pids.contains_key(
            #[trigger] snap[i].pids@[j],
        ) ==> live.contains_key(snap[i].pids@[j])
}

proof fn lemma_push_to_set(s: Seq<u32>, p: u32)
    ensures
        s.push(p).to_set() =~= s.to_set().insert(p),
{
    assert forall|x: u32|
        s.push(p).to_set().contains(x) == s.to_set().insert(p).contains(x) by {
        if s.push(p).contains(x) {
            let i = choose|i: int| 0 <= i < s.push(p).len() && s.push(p)[i] == x;
            if i < s.len() {
                assert(s[i] == x);
            }
        }
        if s.contains(x) {
            let i = choose|i: int| 0 <= i < s.len() && s[i] == x;
            assert(s.push(p)[i] == x);
        }
        assert(s.push(p)[s.len() as int] == p);
    }
}

fn vec_contains(v: &Vec<u32>, x: u32) -> (r: bool)
    ensures
        r == v@.contains(x),
{
    let mut i: usize = 0;
    while i < v.len()
        invariant
            i <= v@.len(),
            forall|j: int| 0 <= j < i ==> v@[j] != x,
        decreases v@.len() - i,
    {
        if v[i] == x {
            return true;
        }
        i += 1;
    }
    false
}

/// The admission pass: walk the snapshot, drop suppressed and ignored
/// windows, suppress windows whose class read failed and pids that probed
/// dead or erroring, and hand back the admitted windows with their
/// surviving pid sets.
fn admit_exec(
    hatred: &mut Hatred,
    config: &Config,
    snapshot: &Vec<RawWindow>,
    table: &LivenessTable,
) -> (admitted: Vec<(u32, WindowInfo)>)
    requires
        old(hatred).wf(),
        table.wf(),
        snapshot_wf(snapshot@),
        snap_pids_covered(snapshot@, old(hatred)@, table@),
    ensures
        final(hatred).wf(),
        alist_unique(info_entries(admitted@)),
        forall|j: int| 0 <= j < admitted@.len() ==> (#[trigger] admitted@[j]).1.wf(),
        info_map(admitted@) == admit_snap(
            raw_views(snapshot@),
            old(hatred)@,
            pattern_views(config.ignore@),
            table@,
        ).0,
        final(hatred)@ == admit_snap(
            raw_views(snapshot@),
            old(hatred)@,
            pattern_views(config.ignore@),
            table@,
        ).1,
{
    let ghost ign = pattern_views(config.ignore@);
    let ghost raws = raw_views(snapshot@);
    let mut admitted: Vec<(u32, WindowInfo)> = Vec::new();
    let mut si: usize = 0;
    proof {
        assert(raws.take(0) =~= Seq::<RawView>::empty());
        assert(info_entries(admitted@) =~= Seq::<(u32, WinView)>::empty());
    }
    while si < snapshot.len()
        invariant
            hatred.wf(),
            table.wf(),
            snapshot_wf(snapshot@),
            snap_pids_covered(snapshot@, old(hatred)@, table@),
            ign == pattern_views(config.ignore@),
            raws == raw_views(snapshot@),
            si <= snapshot@.len(),
            alist_unique(info_entries(admitted@)),
            forall|j: int| 0 <= j < admitted@.len() ==> (#[trigger] admitted@[j]).1.wf(),
            forall|j: int|
                0 <= j < admitted@.len() ==> exists|jj: int|
                    0 <= jj < si && (#[trigger] snapshot@[jj]).window.0 == (
                    #[trigger] admitted@[j]).0,
            info_map(admitted@) == admit_snap(raws.take(si as int), old(hatred)@, ign, table@).0,
            hatred@ == admit_snap(raws.take(si as int), old(hatred)@, ign, table@).1,
            forall|p: u32|
                #[trigger] old(hatred)@.pids.contains_key(p) ==> hatred@.pids.contains_key(p),
        decreases snapshot@.len() - si,
    {
        let ghost pre = raws.take(si as int);
        let ghost post = raws.take(si as int + 1);
        proof {
            assert(post.drop_last() =~= pre);
            assert(post.last() == raws[si as int]);
            assert(raws[si as int] == snapshot@[si as int]@);
        }
        let rw = &snapshot[si];
        if !hatred.is_window_suppressed(rw.window) {
            match &rw.class {
                None => {
                    hatred.suppress_window(rw.window, reason_class_failed_string());
                },
                Some(class) => {
                    if !any_apply(class.as_str(), &config.ignore) {
                        let ghost h0 = hatred@;
                        let mut pids: Vec<u32> = Vec::new();
                        let mut pi: usize = 0;
                        proof {
                            assert(rw.pids@.take(0) =~= Seq::<u32>::empty());
                            assert(pids@.to_set() =~= Set::<u32>::empty());
                        }
                        while pi < rw.pids.len()
                            invariant
                                hatred.wf(),
                                table.wf(),
                                pi <= rw.pids@.len(),
                                rw.wf(),
                                snap_pids_covered(snapshot@, old(hatred)@, table@),
                                0 <= si < snapshot@.len(),
                                rw == &snapshot@[si as int],
                                forall|k: int, l: int|
                                    0 <= k < l < pids@.len() ==> pids@[k] != pids@[l],
                                forall|k: int|
                                    0 <= k < pids@.len() ==> (#[trigger] pids@[k]) <= PID_LIMIT,
                                pids@.to_set() == admit_pids(
                                    rw.pids@.take(pi as int),
                                    h0,
                                    table@,
                                ).0,
                                hatred@ == admit_pids(rw.pids@.take(pi as int), h0, table@).1,
                                forall|p: u32|
                                    #[trigger] old(hatred)@.pids.contains_key(p)
                                        ==> hatred@.pids.contains_key(p),
                            decreases rw.pids@.len() - pi,
                        {
                            let ghost ppre = rw.pids@.take(pi as int);
                            let ghost ppost = rw.pids@.take(pi as int + 1);
                            proof {
                                assert(ppost.drop_last() =~= ppre);
                                assert(ppost.last() == rw.pids@[pi as int]);
                            }
                            let p = rw.pids[pi];
                            if !hatred.is_pid_suppressed(p) {
                                match table.verdict(p) {
                                    Some(Liveness::Alive) => {
                                        if !vec_contains(&pids, p) {
                                            let ghost pv = pids@;
                                            pids.push(p);
                                            proof {
                                                lemma_push_to_set(pv, p);
                                                assert(pids@ == pv.push(p));
                                            }
                                        } else {
                                            proof {
                                                assert(pids@.to_set().contains(p));
                                                assert(pids@.to_set() =~= pids@.to_set().insert(
                                                    p,
                                                ));
                                            }
                                        }
                                    },
                                    Some(Liveness::Dead) => {
                                        hatred.suppress_pid(p, reason_pid_dead_string());
                                    },
                                    Some(Liveness::Failed) => {
                                        hatred.suppress_pid(p, reason_pid_err_string());
                                    },
                                    None => {
                                        proof {
                                            assert(snapshot@[si as int].pids@[pi as int] == p);
                                            assert(!old(hatred)@.pids.contains_key(p));
                                            assert(table@.contains_key(p));
                                            assert(false);
                                        }
                                        return unreached();
                                    },
                                }
                            }
                            pi += 1;
                        }
                        proof {
                            assert(rw.pids@.take(rw.pids@.len() as int) =~= rw.pids@);
                        }
                        let info = WindowInfo {
                            pids,
                            supports_delete: rw.supports_delete,
                            class: class.clone(),
                            title: rw.title.clone(),
                        };
                        proof {
                            let ghost pr = admit_pids(rw.pids@, h0, table@);
                            assert(info@ == WinView {
                                pids: pr.0,
                                supports_delete: raws[si as int].supports_delete,
                                class: raws[si as int].class->Some_0,
                                title: raws[si as int].title,
                            });
                            assert forall|j: int| 0 <= j < admitted@.len() implies (
                            #[trigger] admitted@[j]).0 != rw.window.0 by {
                                let jj = choose|jj: int|
                                    0 <= jj < si && (#[trigger] snapshot@[jj]).window.0
                                        == admitted@[j].0;
                                assert(snapshot@[jj].window.0 != snapshot@[si as int].window.0);
                            }
                            assert(info_entries(admitted@.push((rw.window.0, info))) =~= (
                            info_entries(admitted@).push((rw.window.0, info@))));
                            lemma_alist_push(info_entries(admitted@), rw.window.0, info@);
                            assert forall|k: int, l: int|
                                0 <= k < l < info_entries(admitted@.push((rw.window.0, info))).len()
                                implies (#[trigger] info_entries(
                                admitted@.push((rw.window.0, info)),
                            )[k]).0 != (#[trigger] info_entries(
                                admitted@.push((rw.window.0, info)),
                            )[l]).0 by {
                                if l < admitted@.len() {
                                    assert(info_entries(admitted@)[k].0 == admitted@[k].0);
                                    assert(info_entries(admitted@)[l].0 == admitted@[l].0);
                                } else {
                                    assert(admitted@[k].0 != rw.window.0);
                                }
                            }
                        }
                        admitted.push((rw.window.0, info));
                    }
                },
            }
        }
        si += 1;
    }
    proof {
        assert(raws.take(snapshot@.len() as int) =~= raws);
    }
    admitted
}

// ---------------------------------------------------------------------------
// Merging: fold the admitted snapshot into the tracked state
// ---------------------------------------------------------------------------

/// What a window already tracked becomes when re-seen: class, title and
/// protocol support come from the fresh read; pids only ever accumulate.
pub open spec fn merged_info(o: WinView, n: WinView) -> WinView {
    WinView {
        pids: o.pids.union(n.pids),
        supports_delete: n.supports_delete,
        class: n.class,
        title: n.title,
    }
}

/// The window was tracked but is absent from the admitted snapshot.
pub open spec fn window_dying(ws: Map<u32, WinView>, adm: Map<u32, WinView>, w: u32) -> bool {
    ws.contains_key(w) && !adm.contains_key(w)
}

/// Some dying window owns this pid, so it is a candidate for migration.
pub open spec fn pid_migrated(ws: Map<u32, WinView>, adm: Map<u32, WinView>, p: u32) -> bool {
    exists|w: u32| #[trigger] window_dying(ws, adm, w) && ws[w].pids.contains(p)
}

/// The pid of a vanished window actually migrates into the orphan map:
/// some dying window owns it, it is not in the suppression ledger, and it
/// probed alive this cycle. Suppressed, dead and erroring pids of a
/// vanished window are left behind for good.
pub open spec fn pid_migrates(
    ws: Map<u32, WinView>,
    adm: Map<u32, WinView>,
    hat: HatredView,
    live: Map<u32, Liveness>,
    p: u32,
) -> bool {
    pid_migrated(ws, adm, p) && !hat.pids.contains_key(p) && live[p] is Alive
}

/// `pid_migrated`, restricted to the first `k` tracked entries.
pub open spec fn migrated_upto(
    ws: Seq<(u32, WindowInfo)>,
    adm: Map<u32, WinView>,
    k: int,
    p: u32,
) -> bool {
    exists|j: int|
        0 <= j < k && !adm.contains_key((#[trigger] ws[j]).0) && ws[j].1.pids@.contains(p)
}

/// `pid_migrates`, restricted to the first `k` tracked entries.
spec fn migrates_upto(
    ws: Seq<(u32, WindowInfo)>,
    adm: Map<u32, WinView>,
    hat: HatredView,
    live: Map<u32, Liveness>,
    k: int,
    p: u32,
) -> bool {
    migrated_upto(ws, adm, k, p) && !hat.pids.contains_key(p) && live[p] is Alive
}

proof fn lemma_migrated_bridge(ws: Seq<(u32, WindowInfo)>, adm: Map<u32, WinView>, p: u32)
    requires
        alist_unique(info_entries(ws)),
    ensures
        migrated_upto(ws, adm, ws.len() as int, p) <==> pid_migrated(info_map(ws), adm, p),
{
    lemma_alist_dom(info_entries(ws));
    if migrated_upto(ws, adm, ws.len() as int, p) {
        let j = choose|j: int|
            0 <= j < ws.len() && !adm.contains_key((#[trigger] ws[j]).0) && ws[j].1.pids@.contains(
                p,
            );
        let w = ws[j].0;
        assert(info_entries(ws)[j].0 == w);
        assert(info_map(ws).contains_key(w));
        lemma_alist_index(info_entries(ws), j);
        assert(info_map(ws)[w] == ws[j].1@);
        assert(info_map(ws)[w].pids.contains(p));
        assert(window_dying(info_map(ws), adm, w) && info_map(ws)[w].pids.contains(p));
    }
    if pid_migrated(info_map(ws), adm, p) {
        let w = choose|w: u32|
            #[trigger] window_dying(info_map(ws), adm, w) && info_map(ws)[w].pids.contains(p);
        let j = choose|j: int| 0 <= j < info_entries(ws).len() && (#[trigger] info_entries(ws)[j]).0 == w;
        assert(ws[j].0 == w);
        lemma_alist_index(info_entries(ws), j);
        assert(info_map(ws)[w] == ws[j].1@);
        assert(ws[j].1.pids@.contains(p));
    }
}

/// Overwrite-or-insert into an orphan association vector.
fn info_insert(v: &mut Vec<(u32, WindowInfo)>, key: u32, info: WindowInfo)
    requires
        alist_unique(info_entries(old(v)@)),
        forall|j: int| 0 <= j < old(v)@.len() ==> (#[trigger] old(v)@[j]).1.wf(),
        forall|j: int| 0 <= j < old(v)@.len() ==> (#[trigger] old(v)@[j]).0 <= PID_LIMIT,
        info.wf(),
        key <= PID_LIMIT,
    ensures
        alist_unique(info_entries(final(v)@)),
        forall|j: int| 0 <= j < final(v)@.len() ==> (#[trigger] final(v)@[j]).1.wf(),
        forall|j: int| 0 <= j < final(v)@.len() ==> (#[trigger] final(v)@[j]).0 <= PID_LIMIT,
        info_map(final(v)@) == info_map(old(v)@).insert(key, info@),
{
    let ghost pre = v@;
    match alist_find(v, key) {
        Some(i) => {
            proof {
                assert(info_entries(pre)[i as int].0 == key);
                lemma_alist_update(info_entries(pre), i as int, info@);
            }
            v.set(i, (key, info));
            proof {
                assert(info_entries(v@) =~= info_entries(pre).update(i as int, (key, info@)));
                assert forall|k: int, l: int|
                    0 <= k < l < info_entries(v@).len() implies (#[trigger] info_entries(v@)[k]).0
                    != (#[trigger] info_entries(v@)[l]).0 by {
                    assert(info_entries(v@)[k].0 == info_entries(pre)[k].0);
                    assert(info_entries(v@)[l].0 == info_entries(pre)[l].0);
                }
            }
        },
        None => {
            proof {
                lemma_alist_push(info_entries(pre), key, info@);
            }
            v.push((key, info));
            proof {
                assert(info_entries(v@) =~= info_entries(pre).push((key, info@)));
                assert forall|k: int, l: int|
                    0 <= k < l < info_entries(v@).len() implies (#[trigger] info_entries(v@)[k]).0
                    != (#[trigger] info_entries(v@)[l]).0 by {
                    if l < pre.len() {
                        assert(info_entries(v@)[k].0 == info_entries(pre)[k].0);
                        assert(info_entries(v@)[l].0 == info_entries(pre)[l].0);
                    } else {
                        assert(info_entries(v@)[l].0 == key);
                        assert(info_entries(v@)[k].0 == pre[k].0);
                        assert(pre[k].0 != key);
                    }
                }
            }
        },
    }
}

/// Merge a fresh read into a tracked window's record: overwrite class,
/// title and protocol support, and accumulate the pid set.
fn merge_window_infos(oldinfo: &WindowInfo, newi: &WindowInfo) -> (r: WindowInfo)
    requires
        oldinfo.wf(),
        newi.wf(),
    ensures
        r.wf(),
        r@ == merged_info(oldinfo@, newi@),
{
    let mut merged = oldinfo.duplicate();
    let mut k: usize = 0;
    proof {
        assert(newi.pids@.take(0) =~= Seq::<u32>::empty());
    }
    while k < newi.pids.len()
        invariant
            newi.wf(),
            k <= newi.pids@.len(),
            forall|a: int, b: int|
                0 <= a < b < merged.pids@.len() ==> merged.pids@[a] != merged.pids@[b],
            forall|a: int|
                0 <= a < merged.pids@.len() ==> (#[trigger] merged.pids@[a]) <= PID_LIMIT,
            forall|x: u32|
                merged.pids@.contains(x) <==> oldinfo.pids@.contains(x) || newi.pids@.take(
                    k as int,
                ).contains(x),
        decreases newi.pids@.len() - k,
    {
        let p = newi.pids[k];
        proof {
            assert(newi.pids@.take(k as int + 1) =~= newi.pids@.take(k as int).push(
                newi.pids@[k as int],
            ));
            lemma_push_contains(newi.pids@.take(k as int), newi.pids@[k as int]);
        }
        if !vec_contains(&merged.pids, p) {
            let ghost mv = merged.pids@;
            merged.pids.push(p);
            proof {
                lemma_push_contains(mv, p);
            }
        }
        k += 1;
    }
    proof {
        assert(newi.pids@.take(newi.pids@.len() as int) =~= newi.pids@);
    }
    merged.supports_delete = newi.supports_delete;
    merged.class = newi.class.clone();
    merged.title = newi.title.clone();
    proof {
        assert(merged.pids@.to_set() =~= oldinfo.pids@.to_set().union(newi.pids@.to_set()));
        assert(merged@ =~= merged_info(oldinfo@, newi@));
    }
    merged
}

/// First merge pass: walk the previously tracked windows. A window still
/// present in the admitted snapshot is kept with merged information; a
/// vanished one is dropped, and those of its pids that are not suppressed
/// and probed alive this cycle are migrated into the orphan map.
/// Also reports whether any tracked window's title changed, and whether any
/// tracked window vanished.
fn update_windows(
    old_windows: &Vec<(u32, WindowInfo)>,
    admitted: &Vec<(u32, WindowInfo)>,
    orphans: &mut Vec<(u32, WindowInfo)>,
    hatred: &Hatred,
    table: &LivenessTable,
) -> (r: (Vec<(u32, WindowInfo)>, bool, bool))
    requires
        alist_unique(info_entries(old_windows@)),
        alist_unique(info_entries(admitted@)),
        alist_unique(info_entries(old(orphans)@)),
        forall|j: int| 0 <= j < old_windows@.len() ==> (#[trigger] old_windows@[j]).1.wf(),
        forall|j: int| 0 <= j < admitted@.len() ==> (#[trigger] admitted@[j]).1.wf(),
        forall|j: int| 0 <= j < old(orphans)@.len() ==> (#[trigger] old(orphans)@[j]).1.wf(),
        forall|j: int| 0 <= j < old(orphans)@.len() ==> (#[trigger] old(orphans)@[j]).0 <= PID_LIMIT,
        hatred.wf(),
        table.wf(),
        forall|j: int, k: int|
            0 <= j < old_windows@.len() && 0 <= k < old_windows@[j].1.pids@.len()
                ==> table@.contains_key(#[trigger] old_windows@[j].1.pids@[k]),
    ensures
        ({
            let sw = info_map(old_windows@);
            let adm = info_map(admitted@);
            let so = info_map(old(orphans)@);
            let no = info_map(final(orphans)@);
            let nw = info_map(r.0@);
            &&& alist_unique(info_entries(r.0@))
            &&& forall|j: int| 0 <= j < r.0@.len() ==> (#[trigger] r.0@[j]).1.wf()
            &&& alist_unique(info_entries(final(orphans)@))
            &&& forall|j: int|
                0 <= j < final(orphans)@.len() ==> (#[trigger] final(orphans)@[j]).1.wf()
            &&& forall|j: int|
                0 <= j < final(orphans)@.len() ==> (#[trigger] final(orphans)@[j]).0
                    <= PID_LIMIT
            &&& forall|w: u32| #![trigger nw.contains_key(w)]
                nw.contains_key(w) <==> (sw.contains_key(w) && adm.contains_key(w))
            &&& forall|w: u32|
                #[trigger] nw.contains_key(w) ==> nw[w] == merged_info(sw[w], adm[w])
            &&& forall|p: u32| #![trigger no.contains_key(p)]
                no.contains_key(p) <==> (so.contains_key(p) || pid_migrates(
                    sw,
                    adm,
                    hatred@,
                    table@,
                    p,
                ))
            &&& forall|p: u32|
                #[trigger] no.contains_key(p) ==> (if pid_migrates(sw, adm, hatred@, table@, p) {
                    exists|w: u32|
                        #[trigger] window_dying(sw, adm, w) && sw[w].pids.contains(p) && no[p]
                            == sw[w]
                } else {
                    no[p] == so[p]
                })
            &&& r.1 == exists|w: u32|
                #[trigger] adm.contains_key(w) && sw.contains_key(w) && sw[w].title
                    != adm[w].title
            &&& r.2 == exists|w: u32| #[trigger] window_dying(sw, adm, w)
        }),
{
    let ghost sw = info_map(old_windows@);
    let ghost adm = info_map(admitted@);
    let ghost so = info_map(old(orphans)@);
    let ghost hatv = hatred@;
    let ghost live = table@;
    proof {
        lemma_alist_dom(info_entries(old_windows@));
        lemma_alist_dom(info_entries(admitted@));
    }
    let mut nw: Vec<(u32, WindowInfo)> = Vec::new();
    let mut c_title: bool = false;
    let mut c_died: bool = false;
    let mut wi: usize = 0;
    proof {
        assert(info_entries(nw@) =~= Seq::<(u32, WinView)>::empty());
    }
    while wi < old_windows.len()
        invariant
            alist_unique(info_entries(old_windows@)),
            alist_unique(info_entries(admitted@)),
            forall|j: int| 0 <= j < old_windows@.len() ==> (#[trigger] old_windows@[j]).1.wf(),
            forall|j: int| 0 <= j < admitted@.len() ==> (#[trigger] admitted@[j]).1.wf(),
            sw == info_map(old_windows@),
            adm == info_map(admitted@),
            so == info_map(old(orphans)@),
            hatv == hatred@,
            live == table@,
            hatred.wf(),
            table.wf(),
            forall|j: int, k: int|
                0 <= j < old_windows@.len() && 0 <= k < old_windows@[j].1.pids@.len()
                    ==> table@.contains_key(#[trigger] old_windows@[j].1.pids@[k]),
            wi <= old_windows@.len(),
            alist_unique(info_entries(nw@)),
            forall|j: int| 0 <= j < nw@.len() ==> (#[trigger] nw@[j]).1.wf(),
            alist_unique(info_entries(orphans@)),
            forall|j: int| 0 <= j < orphans@.len() ==> (#[trigger] orphans@[j]).1.wf(),
            forall|j: int| 0 <= j < orphans@.len() ==> (#[trigger] orphans@[j]).0 <= PID_LIMIT,
            forall|w: u32| #![trigger info_map(nw@).contains_key(w)]
                info_map(nw@).contains_key(w) <==> exists|j: int|
                    0 <= j < wi && (#[trigger] old_windows@[j]).0 == w && adm.contains_key(w),
            forall|w: u32|
                #[trigger] info_map(nw@).contains_key(w) ==> info_map(nw@)[w] == merged_info(
                    sw[w],
                    adm[w],
                ),
            forall|p: u32| #![trigger info_map(orphans@).contains_key(p)]
                info_map(orphans@).contains_key(p) <==> (so.contains_key(p) || migrates_upto(
                    old_windows@,
                    adm,
                    hatv,
                    live,
                    wi as int,
                    p,
                )),
            forall|p: u32|
                #[trigger] info_map(orphans@).contains_key(p) ==> (if migrates_upto(
                    old_windows@,
                    adm,
                    hatv,
                    live,
                    wi as int,
                    p,
                ) {
                    exists|j: int|
                        0 <= j < wi && !adm.contains_key((#[trigger] old_windows@[j]).0)
                            && old_windows@[j].1.pids@.contains(p) && info_map(orphans@)[p]
                            == old_windows@[j].1@
                } else {
                    info_map(orphans@)[p] == so[p]
                }),
            c_title == exists|j: int|
                0 <= j < wi && adm.contains_key((#[trigger] old_windows@[j]).0) && old_windows@[
                    j
                ].1@.title != adm[old_windows@[j].0].title,
            c_died == exists|j: int|
                0 <= j < wi && !adm.contains_key((#[trigger] old_windows@[j]).0),
        decreases old_windows@.len() - wi,
    {
        let wid = old_windows[wi].0;
        let ghost nw_pre = nw@;
        let ghost or_pre = orphans@;
        proof {
            assert(info_entries(old_windows@)[wi as int].0 == wid);
            lemma_alist_index(info_entries(old_windows@), wi as int);
            assert(sw.contains_key(wid));
            assert(sw[wid] == old_windows@[wi as int].1@);
        }
        match alist_find(admitted, wid) {
            Some(ai) => {
                proof {
                    assert(info_entries(admitted@)[ai as int].0 == wid);
                    lemma_alist_index(info_entries(admitted@), ai as int);
                    assert(adm.contains_key(wid));
                    assert(adm[wid] == admitted@[ai as int].1@);
                }
                let oldinfo = &old_windows[wi].1;
                let newi = &admitted[ai].1;
                if !(oldinfo.title == newi.title) {
                    c_title = true;
                }
                let merged = merge_window_infos(oldinfo, newi);
                proof {
                    assert forall|j: int| 0 <= j < nw_pre.len() implies (
                    #[trigger] nw_pre[j]).0 != wid by {
                        assert(info_entries(nw_pre)[j].0 == nw_pre[j].0);
                        lemma_alist_dom(info_entries(nw_pre));
                        if nw_pre[j].0 == wid {
                            assert(info_map(nw_pre).contains_key(wid));
                            let jj = choose|jj: int|
                                0 <= jj < wi && (#[trigger] old_windows@[jj]).0 == wid
                                    && adm.contains_key(wid);
                            assert(info_entries(old_windows@)[jj].0 == old_windows@[jj].0);
                            assert(info_entries(old_windows@)[wi as int].0 == old_windows@[
                                wi as int
                            ].0);
                            assert(false);
                        }
                    }
                    lemma_alist_push(info_entries(nw_pre), wid, merged@);
                    assert(info_entries(nw_pre.push((wid, merged))) =~= info_entries(
                        nw_pre,
                    ).push((wid, merged@)));
                }
                nw.push((wid, merged));
                proof {
                    assert(info_map(nw@) == info_map(nw_pre).insert(wid, merged@));
                    assert forall|w: u32|
                        #[trigger] info_map(nw@).contains_key(w) implies info_map(nw@)[w]
                        == merged_info(sw[w], adm[w]) by {
                        if w == wid {
                            assert(info_map(nw@)[w] == merged@);
                        } else {
                            assert(info_map(nw@).contains_key(w) == info_map(
                                nw_pre,
                            ).contains_key(w));
                            assert(info_map(nw@)[w] == info_map(nw_pre)[w]);
                        }
                    }
                    assert forall|k: int, l: int|
                        0 <= k < l < info_entries(nw@).len() implies (#[trigger] info_entries(
                        nw@,
                    )[k]).0 != (#[trigger] info_entries(nw@)[l]).0 by {
                        if l < nw_pre.len() {
                            assert(info_entries(nw@)[k].0 == info_entries(nw_pre)[k].0);
                            assert(info_entries(nw@)[l].0 == info_entries(nw_pre)[l].0);
                        } else {
                            assert(info_entries(nw@)[l].0 == wid);
                            assert(info_entries(nw@)[k].0 == nw_pre[k].0);
                        }
                    }
                    assert forall|w: u32|
                        info_map(nw@).contains_key(w) <==> exists|j: int|
                            0 <= j < wi + 1 && (#[trigger] old_windows@[j]).0 == w
                                && adm.contains_key(w) by {
                        if info_map(nw@).contains_key(w) {
                            if w == wid {
                                assert(old_windows@[wi as int].0 == w && adm.contains_key(w));
                            } else {
                                assert(info_map(nw_pre).contains_key(w));
                            }
                        } else {
                            assert(!info_map(nw_pre).contains_key(w) && w != wid);
                        }
                    }
                    assert forall|p: u32|
                        migrates_upto(old_windows@, adm, hatv, live, wi as int + 1, p)
                            == migrates_upto(old_windows@, adm, hatv, live, wi as int, p) by {
                        if migrated_upto(old_windows@, adm, wi as int + 1, p) {
                            let j = choose|j: int|
                                0 <= j < wi + 1 && !adm.contains_key(
                                    (#[trigger] old_windows@[j]).0,
                                ) && old_windows@[j].1.pids@.contains(p);
                            assert(j != wi);
                        }
                    }
                    assert forall|j: int|
                        0 <= j < wi + 1 && adm.contains_key((#[trigger] old_windows@[j]).0)
                            && old_windows@[j].1@.title != adm[old_windows@[j].0].title implies (
                    c_title) by {
                        if j == wi {
                            assert(old_windows@[wi as int].1@.title != adm[wid].title);
                        }
                    }
                }
            },
            None => {
                c_died = true;
                proof {
                    assert(!adm.contains_key(wid)) by {
                        lemma_alist_dom(info_entries(admitted@));
                        if adm.contains_key(wid) {
                            let j = choose|j: int|
                                0 <= j < info_entries(admitted@).len() && (
                                #[trigger] info_entries(admitted@)[j]).0 == wid;
                            assert(admitted@[j].0 == wid);
                        }
                    }
                }
                let oldinfo = &old_windows[wi].1;
                let mut pk: usize = 0;
                while pk < oldinfo.pids.len()
                    invariant
                        0 <= wi < old_windows@.len(),
                        oldinfo == &old_windows@[wi as int].1,
                        oldinfo.wf(),
                        !adm.contains_key(old_windows@[wi as int].0),
                        pk <= oldinfo.pids@.len(),
                        hatv == hatred@,
                        live == table@,
                        hatred.wf(),
                        table.wf(),
                        forall|k: int|
                            0 <= k < oldinfo.pids@.len() ==> table@.contains_key(
                                #[trigger] oldinfo.pids@[k],
                            ),
                        alist_unique(info_entries(orphans@)),
                        forall|j: int|
                            0 <= j < orphans@.len() ==> (#[trigger] orphans@[j]).1.wf(),
                        forall|j: int|
                            0 <= j < orphans@.len() ==> (#[trigger] orphans@[j]).0 <= PID_LIMIT,
                        forall|p: u32| #![trigger info_map(orphans@).contains_key(p)]
                            info_map(orphans@).contains_key(p) <==> (info_map(
                                or_pre,
                            ).contains_key(p) || (oldinfo.pids@.take(pk as int).contains(p)
                                && !hatv.pids.contains_key(p) && live[p] is Alive)),
                        forall|p: u32|
                            #[trigger] info_map(orphans@).contains_key(p) ==> (if oldinfo.pids@
                                .take(pk as int).contains(p) && !hatv.pids.contains_key(p)
                                && live[p] is Alive {
                                info_map(orphans@)[p] == oldinfo@
                            } else {
                                info_map(orphans@)[p] == info_map(or_pre)[p]
                            }),
                    decreases oldinfo.pids@.len() - pk,
                {
                    let p = oldinfo.pids[pk];
                    proof {
                        assert(oldinfo.pids@.take(pk as int + 1) =~= oldinfo.pids@.take(
                            pk as int,
                        ).push(oldinfo.pids@[pk as int]));
                        lemma_push_contains(oldinfo.pids@.take(pk as int), oldinfo.pids@[pk as int]);
                        assert(oldinfo.pids@.take(pk as int + 1)[pk as int] == p);
                        assert(oldinfo.pids@.take(pk as int + 1).contains(p));
                        assert(forall|x: u32|
                            oldinfo.pids@.take(pk as int + 1).contains(x)
                                <==> oldinfo.pids@.take(pk as int).contains(x) || x == p);
                    }
                    // Migration carries only pids that are not suppressed and
                    // probed alive this cycle; the rest stay behind for good.
                    if !hatred.is_pid_suppressed(p) {
                        match table.verdict(p) {
                            Some(Liveness::Alive) => {
                                let ghost prev = orphans@;
                                info_insert(orphans, p, oldinfo.duplicate());
                                proof {
                                    assert(info_map(orphans@) == info_map(prev).insert(
                                        p,
                                        oldinfo@,
                                    ));
                                    assert forall|q: u32|
                                        info_map(orphans@).contains_key(q) <==> (info_map(
                                            or_pre,
                                        ).contains_key(q) || (oldinfo.pids@.take(
                                            pk as int + 1,
                                        ).contains(q) && !hatv.pids.contains_key(q) && live[q]
                                            is Alive)) by {
                                        if q != p {
                                            assert(info_map(orphans@).contains_key(q)
                                                == info_map(prev).contains_key(q));
                                        } else {
                                            assert(oldinfo.pids@.take(pk as int + 1).contains(
                                                p,
                                            ));
                                        }
                                    }
                                    assert forall|q: u32|
                                        #[trigger] info_map(orphans@).contains_key(q) implies (
                                    if oldinfo.pids@.take(pk as int + 1).contains(q)
                                        && !hatv.pids.contains_key(q) && live[q] is Alive {
                                        info_map(orphans@)[q] == oldinfo@
                                    } else {
                                        info_map(orphans@)[q] == info_map(or_pre)[q]
                                    }) by {
                                        if q == p {
                                            assert(info_map(orphans@)[q] == oldinfo@);
                                        } else {
                                            assert(info_map(orphans@)[q] == info_map(prev)[q]);
                                            assert(info_map(prev).contains_key(q));
                                        }
                                    }
                                }
                            },
                            Some(_) => {
                                proof {
                                    assert(!(live[p] is Alive));
                                    assert forall|q: u32|
                                        info_map(orphans@).contains_key(q) <==> (info_map(
                                            or_pre,
                                        ).contains_key(q) || (oldinfo.pids@.take(
                                            pk as int + 1,
                                        ).contains(q) && !hatv.pids.contains_key(q) && live[q]
                                            is Alive)) by {}
                                }
                            },
                            None => {
                                proof {
                                    assert(table@.contains_key(oldinfo.pids@[pk as int]));
                                    assert(false);
                                }
                                return unreached();
                            },
                        }
                    } else {
                        proof {
                            assert(hatv.pids.contains_key(p));
                            assert forall|q: u32|
                                info_map(orphans@).contains_key(q) <==> (info_map(
                                    or_pre,
                                ).contains_key(q) || (oldinfo.pids@.take(pk as int + 1).contains(
                                    q,
                                ) && !hatv.pids.contains_key(q) && live[q] is Alive)) by {}
                        }
                    }
                    pk += 1;
                }
                proof {
                    assert(oldinfo.pids@.take(oldinfo.pids@.len() as int) =~= oldinfo.pids@);
                    assert forall|p: u32|
                        info_map(orphans@).contains_key(p) <==> (so.contains_key(p)
                            || migrates_upto(old_windows@, adm, hatv, live, wi as int + 1, p)) by {
                        if info_map(orphans@).contains_key(p) {
                            if oldinfo.pids@.contains(p) && !hatv.pids.contains_key(p) && live[p]
                                is Alive {
                                assert(!adm.contains_key(old_windows@[wi as int].0)
                                    && old_windows@[wi as int].1.pids@.contains(p));
                                assert(migrated_upto(old_windows@, adm, wi as int + 1, p));
                            } else {
                                assert(info_map(or_pre).contains_key(p));
                            }
                        } else {
                            assert(!info_map(or_pre).contains_key(p));
                            if migrates_upto(old_windows@, adm, hatv, live, wi as int + 1, p) {
                                let j = choose|j: int|
                                    0 <= j < wi + 1 && !adm.contains_key(
                                        (#[trigger] old_windows@[j]).0,
                                    ) && old_windows@[j].1.pids@.contains(p);
                                if j < wi {
                                    assert(migrated_upto(old_windows@, adm, wi as int, p));
                                } else {
                                    assert(oldinfo.pids@.contains(p));
                                }
                            }
                        }
                    }
                    assert forall|p: u32|
                        #[trigger] info_map(orphans@).contains_key(p) implies (if migrates_upto(
                        old_windows@,
                        adm,
                        hatv,
                        live,
                        wi as int + 1,
                        p,
                    ) {
                        exists|j: int|
                            0 <= j < wi + 1 && !adm.contains_key((#[trigger] old_windows@[j]).0)
                                && old_windows@[j].1.pids@.contains(p) && info_map(orphans@)[p]
                                == old_windows@[j].1@
                    } else {
                        info_map(orphans@)[p] == so[p]
                    }) by {
                        if migrates_upto(old_windows@, adm, hatv, live, wi as int + 1, p) {
                            if oldinfo.pids@.contains(p) {
                                assert(0 <= wi < wi + 1 && !adm.contains_key(
                                    old_windows@[wi as int].0,
                                ) && old_windows@[wi as int].1.pids@.contains(p) && info_map(
                                    orphans@,
                                )[p] == old_windows@[wi as int].1@);
                            } else {
                                assert(info_map(orphans@)[p] == info_map(or_pre)[p]);
                                assert(info_map(or_pre).contains_key(p));
                                assert(migrated_upto(old_windows@, adm, wi as int, p)) by {
                                    let j = choose|j: int|
                                        0 <= j < wi + 1 && !adm.contains_key(
                                            (#[trigger] old_windows@[j]).0,
                                        ) && old_windows@[j].1.pids@.contains(p);
                                    assert(j != wi);
                                }
                            }
                        } else {
                            assert(!(oldinfo.pids@.contains(p) && !hatv.pids.contains_key(p)
                                && live[p] is Alive));
                            assert(!migrates_upto(old_windows@, adm, hatv, live, wi as int, p))
                                by {
                                if migrated_upto(old_windows@, adm, wi as int, p) {
                                    let j = choose|j: int|
                                        0 <= j < wi && !adm.contains_key(
                                            (#[trigger] old_windows@[j]).0,
                                        ) && old_windows@[j].1.pids@.contains(p);
                                    assert(migrated_upto(old_windows@, adm, wi as int + 1, p));
                                }
                            }
                            assert(info_map(orphans@)[p] == info_map(or_pre)[p]);
                        }
                    }
                }
            },
        }
        wi += 1;
    }
    proof {
        lemma_alist_dom(info_entries(old_windows@));
        assert forall|w: u32|
            info_map(nw@).contains_key(w) <==> (sw.contains_key(w) && adm.contains_key(w)) by {
            if sw.contains_key(w) && adm.contains_key(w) {
                let j = choose|j: int|
                    0 <= j < info_entries(old_windows@).len() && (#[trigger] info_entries(
                        old_windows@,
                    )[j]).0 == w;
                assert(old_windows@[j].0 == w);
            }
            if info_map(nw@).contains_key(w) {
                let j = choose|j: int|
                    0 <= j < old_windows@.len() && (#[trigger] old_windows@[j]).0 == w
                        && adm.contains_key(w);
                assert(info_entries(old_windows@)[j].0 == w);
            }
        }
        assert forall|p: u32|
            info_map(orphans@).contains_key(p) <==> (so.contains_key(p) || pid_migrates(
                sw,
                adm,
                hatv,
                live,
                p,
            )) by {
            lemma_migrated_bridge(old_windows@, adm, p);
        }
        assert forall|p: u32| #[trigger] info_map(orphans@).contains_key(p) implies (
        if pid_migrates(sw, adm, hatv, live, p) {
            exists|w: u32|
                #[trigger] window_dying(sw, adm, w) && sw[w].pids.contains(p) && info_map(
                    orphans@,
                )[p] == sw[w]
        } else {
            info_map(orphans@)[p] == so[p]
        }) by {
            lemma_migrated_bridge(old_windows@, adm, p);
            if pid_migrates(sw, adm, hatv, live, p) {
                let j = choose|j: int|
                    0 <= j < old_windows@.len() && !adm.contains_key(
                        (#[trigger] old_windows@[j]).0,
                    ) && old_windows@[j].1.pids@.contains(p) && info_map(orphans@)[p]
                        == old_windows@[j].1@;
                let w = old_windows@[j].0;
                assert(info_entries(old_windows@)[j].0 == w);
                lemma_alist_index(info_entries(old_windows@), j);
                assert(window_dying(sw, adm, w) && sw[w].pids.contains(p) && info_map(
                    orphans@,
                )[p] == sw[w]);
            }
        }
        assert forall|j: int|
            0 <= j < old_windows@.len() && adm.contains_key((#[trigger] old_windows@[j]).0)
                && old_windows@[j].1@.title != adm[old_windows@[j].0].title implies exists|
            w: u32,
        |
            #[trigger] adm.contains_key(w) && sw.contains_key(w) && sw[w].title
                != adm[w].title by {
            let w = old_windows@[j].0;
            assert(info_entries(old_windows@)[j].0 == w);
            lemma_alist_index(info_entries(old_windows@), j);
            assert(adm.contains_key(w) && sw.contains_key(w) && sw[w].title != adm[w].title);
        }
        assert forall|w: u32|
            #[trigger] adm.contains_key(w) && sw.contains_key(w) && sw[w].title != adm[w].title
                implies exists|j: int|
            0 <= j < old_windows@.len() && adm.contains_key((#[trigger] old_windows@[j]).0)
                && old_windows@[j].1@.title != adm[old_windows@[j].0].title by {
            let j = choose|j: int|
                0 <= j < info_entries(old_windows@).len() && (#[trigger] info_entries(
                    old_windows@,
                )[j]).0 == w;
            assert(old_windows@[j].0 == w);
            lemma_alist_index(info_entries(old_windows@), j);
            assert(0 <= j < old_windows@.len() && adm.contains_key(old_windows@[j].0)
                && old_windows@[j].1@.title != adm[old_windows@[j].0].title);
        }
        assert forall|j: int|
            0 <= j < old_windows@.len() && !adm.contains_key((#[trigger] old_windows@[j]).0)
                implies exists|w: u32| #[trigger] window_dying(sw, adm, w) by {
            let w = old_windows@[j].0;
            assert(info_entries(old_windows@)[j].0 == w);
            assert(sw.contains_key(w));
            assert(window_dying(sw, adm, w));
        }
        assert forall|w: u32| #[trigger] window_dying(sw, adm, w) implies exists|j: int|
            0 <= j < old_windows@.len() && !adm.contains_key(
                (#[trigger] old_windows@[j]).0,
            ) by {
            let j = choose|j: int|
                0 <= j < info_entries(old_windows@).len() && (#[trigger] info_entries(
                    old_windows@,
                )[j]).0 == w;
            assert(old_windows@[j].0 == w);
            assert(0 <= j < old_windows@.len() && !adm.contains_key(old_windows@[j].0));
        }
    }
    (nw, c_title, c_died)
}

/// Second merge pass: windows in the admitted snapshot that were never
/// seen before are inserted fresh. Reports whether any were.
fn append_new_windows(
    nw: &mut Vec<(u32, WindowInfo)>,
    old_windows: &Vec<(u32, WindowInfo)>,
    admitted: &Vec<(u32, WindowInfo)>,
) -> (c_new: bool)
    requires
        alist_unique(info_entries(old(nw)@)),
        alist_unique(info_entries(old_windows@)),
        alist_unique(info_entries(admitted@)),
        forall|j: int| 0 <= j < old(nw)@.len() ==> (#[trigger] old(nw)@[j]).1.wf(),
        forall|j: int| 0 <= j < admitted@.len() ==> (#[trigger] admitted@[j]).1.wf(),
        forall|w: u32| #![trigger info_map(old(nw)@).contains_key(w)]
            info_map(old(nw)@).contains_key(w) <==> (info_map(old_windows@).contains_key(w)
                && info_map(admitted@).contains_key(w)),
    ensures
        alist_unique(info_entries(final(nw)@)),
        forall|j: int| 0 <= j < final(nw)@.len() ==> (#[trigger] final(nw)@[j]).1.wf(),
        forall|w: u32| #![trigger info_map(final(nw)@).contains_key(w)]
            info_map(final(nw)@).contains_key(w) <==> info_map(admitted@).contains_key(w),
        forall|w: u32|
            #[trigger] info_map(final(nw)@).contains_key(w) ==> (if info_map(
                old(nw)@,
            ).contains_key(w) {
                info_map(final(nw)@)[w] == info_map(old(nw)@)[w]
            } else {
                info_map(final(nw)@)[w] == info_map(admitted@)[w]
            }),
        c_new == exists|w: u32|
            #[trigger] info_map(admitted@).contains_key(w) && !info_map(
                old_windows@,
            ).contains_key(w),
{
    let ghost base = old(nw)@;
    let ghost adm = info_map(admitted@);
    let ghost swm = info_map(old_windows@);
    let mut c_new: bool = false;
    let mut ai: usize = 0;
    while ai < admitted.len()
        invariant
            alist_unique(info_entries(old_windows@)),
            alist_unique(info_entries(admitted@)),
            forall|j: int| 0 <= j < admitted@.len() ==> (#[trigger] admitted@[j]).1.wf(),
            base == old(nw)@,
            adm == info_map(admitted@),
            swm == info_map(old_windows@),
            forall|w: u32| #![trigger info_map(base).contains_key(w)]
                info_map(base).contains_key(w) <==> (swm.contains_key(w) && adm.contains_key(w)),
            ai <= admitted@.len(),
            alist_unique(info_entries(nw@)),
            forall|j: int| 0 <= j < nw@.len() ==> (#[trigger] nw@[j]).1.wf(),
            forall|w: u32| #![trigger info_map(nw@).contains_key(w)]
                info_map(nw@).contains_key(w) <==> (info_map(base).contains_key(w) || exists|
                j: int,
                |
                    0 <= j < ai && (#[trigger] admitted@[j]).0 == w && !swm.contains_key(w)),
            forall|w: u32|
                #[trigger] info_map(nw@).contains_key(w) ==> (if info_map(base).contains_key(w) {
                    info_map(nw@)[w] == info_map(base)[w]
                } else {
                    info_map(nw@)[w] == adm[w]
                }),
            c_new == exists|j: int|
                0 <= j < ai && !swm.contains_key((#[trigger] admitted@[j]).0),
        decreases admitted@.len() - ai,
    {
        let wd = admitted[ai].0;
        proof {
            assert(info_entries(admitted@)[ai as int].0 == wd);
            lemma_alist_index(info_entries(admitted@), ai as int);
            assert(adm.contains_key(wd));
            assert(adm[wd] == admitted@[ai as int].1@);
        }
        match alist_find(old_windows, wd) {
            Some(oi) => {
                proof {
                    assert(info_entries(old_windows@)[oi as int].0 == wd);
                    lemma_alist_dom(info_entries(old_windows@));
                    assert(swm.contains_key(wd));
                    assert forall|w: u32|
                        info_map(nw@).contains_key(w) <==> (info_map(base).contains_key(w)
                            || exists|j: int|
                            0 <= j < ai + 1 && (#[trigger] admitted@[j]).0 == w
                                && !swm.contains_key(w)) by {
                        if exists|j: int|
                            0 <= j < ai + 1 && (#[trigger] admitted@[j]).0 == w
                                && !swm.contains_key(w) {
                            let j = choose|j: int|
                                0 <= j < ai + 1 && (#[trigger] admitted@[j]).0 == w
                                    && !swm.contains_key(w);
                            if j == ai {
                                assert(false);
                            }
                        }
                    }
                }
            },
            None => {
                c_new = true;
                let ghost nw_pre = nw@;
                proof {
                    assert(!swm.contains_key(wd)) by {
                        lemma_alist_dom(info_entries(old_windows@));
                        if swm.contains_key(wd) {
                            let j = choose|j: int|
                                0 <= j < info_entries(old_windows@).len() && (
                                #[trigger] info_entries(old_windows@)[j]).0 == wd;
                            assert(old_windows@[j].0 == wd);
                        }
                    }
                    assert(!info_map(nw_pre).contains_key(wd)) by {
                        if info_map(nw_pre).contains_key(wd) {
                            if info_map(base).contains_key(wd) {
                            } else {
                                let j = choose|j: int|
                                    0 <= j < ai && (#[trigger] admitted@[j]).0 == wd
                                        && !swm.contains_key(wd);
                                assert(info_entries(admitted@)[j].0 == wd);
                                assert(info_entries(admitted@)[ai as int].0 == wd);
                            }
                        }
                    }
                    lemma_alist_dom(info_entries(nw_pre));
                    assert forall|j: int| 0 <= j < nw_pre.len() implies (
                    #[trigger] nw_pre[j]).0 != wd by {
                        assert(info_entries(nw_pre)[j].0 == nw_pre[j].0);
                        if nw_pre[j].0 == wd {
                            assert(info_map(nw_pre).contains_key(wd));
                        }
                    }
                    lemma_alist_push(info_entries(nw_pre), wd, admitted@[ai as int].1@);
                }
                let dup = admitted[ai].1.duplicate();
                nw.push((wd, dup));
                proof {
                    assert(info_entries(nw@) =~= info_entries(nw_pre).push((wd, admitted@[
                        ai as int
                    ].1@)));
                    assert(info_map(nw@) == info_map(nw_pre).insert(wd, adm[wd]));
                    assert forall|k: int, l: int|
                        0 <= k < l < info_entries(nw@).len() implies (#[trigger] info_entries(
                        nw@,
                    )[k]).0 != (#[trigger] info_entries(nw@)[l]).0 by {
                        if l < nw_pre.len() {
                            assert(info_entries(nw@)[k].0 == info_entries(nw_pre)[k].0);
                            assert(info_entries(nw@)[l].0 == info_entries(nw_pre)[l].0);
                        } else {
                            assert(info_entries(nw@)[l].0 == wd);
                            assert(info_entries(nw@)[k].0 == nw_pre[k].0);
                        }
                    }
                    assert forall|w: u32|
                        info_map(nw@).contains_key(w) <==> (info_map(base).contains_key(w)
                            || exists|j: int|
                            0 <= j < ai + 1 && (#[trigger] admitted@[j]).0 == w
                                && !swm.contains_key(w)) by {
                        if info_map(nw@).contains_key(w) {
                            if w == wd {
                                assert(admitted@[ai as int].0 == w && !swm.contains_key(w));
                            } else {
                                assert(info_map(nw_pre).contains_key(w));
                            }
                        } else {
                            assert(!info_map(nw_pre).contains_key(w) && w != wd);
                        }
                    }
                    assert forall|w: u32|
                        #[trigger] info_map(nw@).contains_key(w) implies (if info_map(
                        base,
                    ).contains_key(w) {
                        info_map(nw@)[w] == info_map(base)[w]
                    } else {
                        info_map(nw@)[w] == adm[w]
                    }) by {
                        if w == wd {
                            assert(info_map(nw@)[w] == adm[wd]);
                            assert(!info_map(base).contains_key(wd));
                        } else {
                            assert(info_map(nw@).contains_key(w) == info_map(
                                nw_pre,
                            ).contains_key(w));
                            assert(info_map(nw@)[w] == info_map(nw_pre)[w]);
                        }
                    }
                }
            },
        }
        ai += 1;
    }
    proof {
        lemma_alist_dom(info_entries(admitted@));
        assert forall|w: u32|
            info_map(nw@).contains_key(w) <==> adm.contains_key(w) by {
            if info_map(nw@).contains_key(w) {
                if info_map(base).contains_key(w) {
                } else {
                    let j = choose|j: int|
                        0 <= j < admitted@.len() && (#[trigger] admitted@[j]).0 == w
                            && !swm.contains_key(w);
                    assert(info_entries(admitted@)[j].0 == w);
                }
            }
            if adm.contains_key(w) {
                let j = choose|j: int|
                    0 <= j < info_entries(admitted@).len() && (#[trigger] info_entries(
                        admitted@,
                    )[j]).0 == w;
                assert(admitted@[j].0 == w);
                if !swm.contains_key(w) {
                    assert(0 <= j < admitted@.len() && admitted@[j].0 == w && !swm.contains_key(
                        w,
                    ));
                }
            }
        }
        assert forall|j: int|
            0 <= j < admitted@.len() && !swm.contains_key((#[trigger] admitted@[j]).0) implies
            exists|w: u32|
            #[trigger] adm.contains_key(w) && !swm.contains_key(w) by {
            let w = admitted@[j].0;
            assert(info_entries(admitted@)[j].0 == w);
            assert(adm.contains_key(w) && !swm.contains_key(w));
        }
        assert forall|w: u32| #[trigger] adm.contains_key(w) && !swm.contains_key(w) implies
            exists|j: int|
            0 <= j < admitted@.len() && !swm.contains_key((#[trigger] admitted@[j]).0) by {
            let j = choose|j: int|
                0 <= j < info_entries(admitted@).len() && (#[trigger] info_entries(
                    admitted@,
                )[j]).0 == w;
            assert(admitted@[j].0 == w);
            assert(0 <= j < admitted@.len() && !swm.contains_key(admitted@[j].0));
        }
    }
    c_new
}

/// Third merge pass: probe every orphan's verdict; the dead are removed for
/// good, everything else is kept. Reports whether any orphan died.
fn filter_orphans(orphans: &Vec<(u32, WindowInfo)>, table: &LivenessTable) -> (r: (
    Vec<(u32, WindowInfo)>,
    bool,
))
    requires
        alist_unique(info_entries(orphans@)),
        forall|j: int| 0 <= j < orphans@.len() ==> (#[trigger] orphans@[j]).1.wf(),
        forall|j: int| 0 <= j < orphans@.len() ==> (#[trigger] orphans@[j]).0 <= PID_LIMIT,
        table.wf(),
        forall|j: int|
            0 <= j < orphans@.len() ==> table@.contains_key((#[trigger] orphans@[j]).0),
    ensures
        alist_unique(info_entries(r.0@)),
        forall|j: int| 0 <= j < r.0@.len() ==> (#[trigger] r.0@[j]).1.wf(),
        forall|j: int| 0 <= j < r.0@.len() ==> (#[trigger] r.0@[j]).0 <= PID_LIMIT,
        forall|p: u32| #![trigger info_map(r.0@).contains_key(p)]
            info_map(r.0@).contains_key(p) <==> (info_map(orphans@).contains_key(p) && !(
            table@[p] is Dead)),
        forall|p: u32|
            #[trigger] info_map(r.0@).contains_key(p) ==> info_map(r.0@)[p] == info_map(
                orphans@,
            )[p],
        r.1 == exists|p: u32|
            #[trigger] info_map(orphans@).contains_key(p) && table@[p] is Dead,
{
    let mut kept: Vec<(u32, WindowInfo)> = Vec::new();
    let mut died: bool = false;
    let mut oi: usize = 0;
    proof {
        assert(info_entries(kept@) =~= Seq::<(u32, WinView)>::empty());
    }
    while oi < orphans.len()
        invariant
            alist_unique(info_entries(orphans@)),
            forall|j: int| 0 <= j < orphans@.len() ==> (#[trigger] orphans@[j]).1.wf(),
            forall|j: int| 0 <= j < orphans@.len() ==> (#[trigger] orphans@[j]).0 <= PID_LIMIT,
            table.wf(),
            forall|j: int|
                0 <= j < orphans@.len() ==> table@.contains_key((#[trigger] orphans@[j]).0),
            oi <= orphans@.len(),
            alist_unique(info_entries(kept@)),
            forall|j: int| 0 <= j < kept@.len() ==> (#[trigger] kept@[j]).1.wf(),
            forall|j: int| 0 <= j < kept@.len() ==> (#[trigger] kept@[j]).0 <= PID_LIMIT,
            forall|p: u32| #![trigger info_map(kept@).contains_key(p)]
                info_map(kept@).contains_key(p) <==> exists|j: int|
                    0 <= j < oi && (#[trigger] orphans@[j]).0 == p && !(table@[p] is Dead),
            forall|p: u32|
                #[trigger] info_map(kept@).contains_key(p) ==> info_map(kept@)[p] == info_map(
                    orphans@,
                )[p],
            died == exists|j: int|
                0 <= j < oi && table@[(#[trigger] orphans@[j]).0] is Dead,
        decreases orphans@.len() - oi,
    {
        let p = orphans[oi].0;
        proof {
            assert(info_entries(orphans@)[oi as int].0 == p);
            lemma_alist_index(info_entries(orphans@), oi as int);
        }
        match table.verdict(p) {
            Some(Liveness::Dead) => {
                died = true;
                proof {
                    assert forall|q: u32|
                        info_map(kept@).contains_key(q) <==> exists|j: int|
                            0 <= j < oi + 1 && (#[trigger] orphans@[j]).0 == q && !(table@[q]
                                is Dead) by {
                        if exists|j: int|
                            0 <= j < oi + 1 && (#[trigger] orphans@[j]).0 == q && !(table@[q]
                                is Dead) {
                            let j = choose|j: int|
                                0 <= j < oi + 1 && (#[trigger] orphans@[j]).0 == q && !(
                                table@[q] is Dead);
                            assert(j != oi);
                        }
                    }
                }
            },
            Some(_) => {
                let ghost kept_pre = kept@;
                proof {
                    assert(!info_map(kept_pre).contains_key(p)) by {
                        if info_map(kept_pre).contains_key(p) {
                            let j = choose|j: int|
                                0 <= j < oi && (#[trigger] orphans@[j]).0 == p && !(table@[p]
                                    is Dead);
                            assert(info_entries(orphans@)[j].0 == p);
                            assert(info_entries(orphans@)[oi as int].0 == p);
                        }
                    }
                    lemma_alist_dom(info_entries(kept_pre));
                    assert forall|j: int| 0 <= j < kept_pre.len() implies (
                    #[trigger] kept_pre[j]).0 != p by {
                        assert(info_entries(kept_pre)[j].0 == kept_pre[j].0);
                        if kept_pre[j].0 == p {
                            assert(info_map(kept_pre).contains_key(p));
                        }
                    }
                    lemma_alist_push(info_entries(kept_pre), p, orphans@[oi as int].1@);
                }
                let dup = orphans[oi].1.duplicate();
                kept.push((p, dup));
                proof {
                    assert(orphans@[oi as int].0 <= PID_LIMIT);
                    assert forall|j: int| 0 <= j < kept@.len() implies (#[trigger] kept@[j]).0
                        <= PID_LIMIT by {
                        if j < kept_pre.len() {
                            assert(kept@[j] == kept_pre[j]);
                        } else {
                            assert(kept@[j].0 == p);
                        }
                    }
                    assert(info_entries(kept@) =~= info_entries(kept_pre).push((p, orphans@[
                        oi as int
                    ].1@)));
                    assert(info_map(kept@) == info_map(kept_pre).insert(
                        p,
                        orphans@[oi as int].1@,
                    ));
                    assert forall|k: int, l: int|
                        0 <= k < l < info_entries(kept@).len() implies (#[trigger] info_entries(
                        kept@,
                    )[k]).0 != (#[trigger] info_entries(kept@)[l]).0 by {
                        if l < kept_pre.len() {
                            assert(info_entries(kept@)[k].0 == info_entries(kept_pre)[k].0);
                            assert(info_entries(kept@)[l].0 == info_entries(kept_pre)[l].0);
                        } else {
                            assert(info_entries(kept@)[l].0 == p);
                            assert(info_entries(kept@)[k].0 == kept_pre[k].0);
                        }
                    }
                    assert forall|q: u32|
                        info_map(kept@).contains_key(q) <==> exists|j: int|
                            0 <= j < oi + 1 && (#[trigger] orphans@[j]).0 == q && !(table@[q]
                                is Dead) by {
                        if info_map(kept@).contains_key(q) {
                            if q == p {
                                assert(orphans@[oi as int].0 == q && !(table@[q] is Dead));
                            } else {
                                assert(info_map(kept_pre).contains_key(q));
                            }
                        } else {
                            assert(!info_map(kept_pre).contains_key(q) && q != p);
                        }
                    }
                    assert forall|q: u32|
                        #[trigger] info_map(kept@).contains_key(q) implies info_map(kept@)[q]
                        == info_map(orphans@)[q] by {
                        if q == p {
                            assert(info_map(kept@)[q] == orphans@[oi as int].1@);
                            assert(info_map(orphans@)[p] == orphans@[oi as int].1@);
                        } else {
                            assert(info_map(kept@)[q] == info_map(kept_pre)[q]);
                            assert(info_map(kept_pre).contains_key(q));
                        }
                    }
                }
            },
            None => {
                proof {
                    assert(table@.contains_key(orphans@[oi as int].0));
                    assert(false);
                }
                return unreached();
            },
        }
        oi += 1;
    }
    proof {
        lemma_alist_dom(info_entries(orphans@));
        assert forall|p: u32|
            info_map(kept@).contains_key(p) <==> (info_map(orphans@).contains_key(p) && !(
            table@[p] is Dead)) by {
            if info_map(kept@).contains_key(p) {
                let j = choose|j: int|
                    0 <= j < orphans@.len() && (#[trigger] orphans@[j]).0 == p && !(table@[p]
                        is Dead);
                assert(info_entries(orphans@)[j].0 == p);
            }
            if info_map(orphans@).contains_key(p) && !(table@[p] is Dead) {
                let j = choose|j: int|
                    0 <= j < info_entries(orphans@).len() && (#[trigger] info_entries(
                        orphans@,
                    )[j]).0 == p;
                assert(orphans@[j].0 == p);
                assert(0 <= j < orphans@.len() && orphans@[j].0 == p && !(table@[p] is Dead));
            }
        }
        assert forall|j: int|
            0 <= j < orphans@.len() && table@[(#[trigger] orphans@[j]).0] is Dead implies exists|
            p: u32,
        |
            #[trigger] info_map(orphans@).contains_key(p) && table@[p] is Dead by {
            let p = orphans@[j].0;
            assert(info_entries(orphans@)[j].0 == p);
            assert(info_map(orphans@).contains_key(p) && table@[p] is Dead);
        }
        assert forall|p: u32|
            #[trigger] info_map(orphans@).contains_key(p) && table@[p] is Dead implies exists|
            j: int,
        |
            0 <= j < orphans@.len() && table@[(#[trigger] orphans@[j]).0] is Dead by {
            let j = choose|j: int|
                0 <= j < info_entries(orphans@).len() && (#[trigger] info_entries(
                    orphans@,
                )[j]).0 == p;
            assert(orphans@[j].0 == p);
            assert(0 <= j < orphans@.len() && table@[orphans@[j].0] is Dead);
        }
    }
    (kept, died)
}

// ---------------------------------------------------------------------------
// The reconciliation relation and the step itself
// ---------------------------------------------------------------------------

/// What counts as a change worth telling the user: a tracked window's title
/// changed, a window appeared, a window vanished, or an orphan died. Pid-set
/// growth alone does not count.
pub open spec fn reconcile_changed(
    sv: StateView,
    adm: Map<u32, WinView>,
    live: Map<u32, Liveness>,
) -> bool {
    ||| exists|w: u32|
        #[trigger] adm.contains_key(w) && sv.windows.contains_key(w) && sv.windows[w].title
            != adm[w].title
    ||| exists|w: u32| #[trigger] window_dying(sv.windows, adm, w)
    ||| exists|w: u32| #[trigger] adm.contains_key(w) && !sv.windows.contains_key(w)
    ||| exists|p: u32| #[trigger] sv.orphans.contains_key(p) && live[p] is Dead
}

/// The full input/output relation of one reconciliation step, over the
/// views of the tracked state and the ledger.
pub open spec fn reconcile_rel(
    sv: StateView,
    hv: HatredView,
    snap: Seq<RawView>,
    ignore: Seq<Seq<char>>,
    live: Map<u32, Liveness>,
    sv2: StateView,
    hv2: HatredView,
    changed: bool,
) -> bool {
    let a = admit_snap(snap, hv, ignore, live);
    let adm = a.0;
    {
        &&& hv2 == a.1
        &&& forall|w: u32| #![trigger sv2.windows.contains_key(w)]
            sv2.windows.contains_key(w) <==> adm.contains_key(w)
        &&& forall|w: u32|
            #[trigger] adm.contains_key(w) ==> sv2.windows[w] == (if sv.windows.contains_key(w) {
                merged_info(sv.windows[w], adm[w])
            } else {
                adm[w]
            })
        &&& forall|p: u32| #![trigger sv2.orphans.contains_key(p)]
            sv2.orphans.contains_key(p) <==> ((sv.orphans.contains_key(p) && !(live[p] is Dead))
                || pid_migrates(sv.windows, adm, a.1, live, p))
        &&& forall|p: u32|
            #[trigger] sv2.orphans.contains_key(p) ==> (if pid_migrates(
                sv.windows,
                adm,
                a.1,
                live,
                p,
            ) {
                exists|w: u32|
                    #[trigger] window_dying(sv.windows, adm, w) && sv.windows[w].pids.contains(p)
                        && sv2.orphans[p] == sv.windows[w]
            } else {
                sv2.orphans[p] == sv.orphans[p]
            })
        &&& changed == reconcile_changed(sv, adm, live)
    }
}

/// Every pid the state holds — orphaned or owned by a tracked window — has
/// a verdict in the liveness table.
pub open spec fn state_pids_covered(sv: StateView, live: Map<u32, Liveness>) -> bool {
    &&& forall|p: u32| #[trigger] sv.orphans.contains_key(p) ==> live.contains_key(p)
    &&& forall|w: u32, p: u32|
        #[trigger] sv.windows.contains_key(w) && #[trigger] sv.windows[w].pids.contains(p)
            ==> live.contains_key(p)
}

/// A tracked window is never a suppressed one.
pub open spec fn consistent(sv: StateView, hv: HatredView) -> bool {
    forall|w: u32| #[trigger] sv.windows.contains_key(w) ==> !hv.windows.contains_key(w)
}

/// One reconciliation step: filter the snapshot through the ledger and the
/// verdicts, merge it into the tracked state, migrate the still-live,
/// unsuppressed pids of vanished windows into the orphan map, drop dead
/// orphans, and report whether anything worth telling the user changed.
pub fn reconcile_step(
    state: TrackedState,
    hatred: &mut Hatred,
    config: &Config,
    snapshot: &Vec<RawWindow>,
    table: &LivenessTable,
) -> (res: (TrackedState, bool))
    requires
        state.wf(),
        old(hatred).wf(),
        table.wf(),
        snapshot_wf(snapshot@),
        snap_pids_covered(snapshot@, old(hatred)@, table@),
        state_pids_covered(state@, table@),
        consistent(state@, old(hatred)@),
    ensures
        res.0.wf(),
        final(hatred).wf(),
        reconcile_rel(
            state@,
            old(hatred)@,
            raw_views(snapshot@),
            pattern_views(config.ignore@),
            table@,
            res.0@,
            final(hatred)@,
            res.1,
        ),
        consistent(res.0@, final(hatred)@),
{
    let ghost sv = state@;
    let ghost hv = old(hatred)@;
    let ghost ign = pattern_views(config.ignore@);
    let admitted = admit_exec(hatred, config, snapshot, table);
    let ghost adm = info_map(admitted@);
    proof {
        assert(adm == admit_snap(raw_views(snapshot@), hv, ign, table@).0);
        assert(hatred@ == admit_snap(raw_views(snapshot@), hv, ign, table@).1);
    }
    let TrackedState { windows: old_windows, orphans } = state;
    let mut orphans = orphans;
    let ghost so0 = orphans@;
    proof {
        assert(sv.windows == info_map(old_windows@));
        assert(sv.orphans == info_map(so0));
    }
    let ghost hv2 = hatred@;
    proof {
        lemma_alist_dom(info_entries(old_windows@));
        assert forall|j: int, k: int|
            0 <= j < old_windows@.len() && 0 <= k < old_windows@[j].1.pids@.len() implies table@
            .contains_key(#[trigger] old_windows@[j].1.pids@[k]) by {
            let w = old_windows@[j].0;
            assert(info_entries(old_windows@)[j].0 == w);
            lemma_alist_index(info_entries(old_windows@), j);
            assert(sv.windows.contains_key(w));
            assert(sv.windows[w] == old_windows@[j].1@);
            assert(old_windows@[j].1.pids@.contains(old_windows@[j].1.pids@[k]));
            assert(sv.windows[w].pids.contains(old_windows@[j].1.pids@[k]));
        }
    }
    let (mut nw, c_title, c_died) = update_windows(
        &old_windows,
        &admitted,
        &mut orphans,
        hatred,
        table,
    );
    let ghost orphans_mid = orphans@;
    let ghost nw_base = nw@;
    let c_new = append_new_windows(&mut nw, &old_windows, &admitted);
    proof {
        lemma_alist_dom(info_entries(orphans_mid));
        assert forall|j: int|
            0 <= j < orphans_mid.len() implies table@.contains_key(
            (#[trigger] orphans_mid[j]).0,
        ) by {
            let p = orphans_mid[j].0;
            assert(info_entries(orphans_mid)[j].0 == p);
            assert(info_map(orphans_mid).contains_key(p));
            if sv.orphans.contains_key(p) {
                assert(table@.contains_key(p));
            } else {
                assert(pid_migrates(sv.windows, adm, hv2, table@, p));
                let w = choose|w: u32|
                    #[trigger] window_dying(sv.windows, adm, w) && sv.windows[w].pids.contains(
                        p,
                    );
                assert(sv.windows.contains_key(w) && sv.windows[w].pids.contains(p));
                assert(table@.contains_key(p));
            }
        }
    }
    let (kept, c_orph) = filter_orphans(&orphans, table);
    let changed = c_title || c_died || c_new || c_orph;
    let result = TrackedState { windows: nw, orphans: kept };
    proof {
        assert(result@.windows == info_map(result.windows@));
        assert forall|w: u32| #[trigger] adm.contains_key(w) implies result@.windows[w] == (
        if sv.windows.contains_key(w) {
            merged_info(sv.windows[w], adm[w])
        } else {
            adm[w]
        }) by {
            assert(result@.windows.contains_key(w));
            if info_map(nw_base).contains_key(w) {
                assert(sv.windows.contains_key(w));
                assert(result@.windows[w] == info_map(nw_base)[w]);
                assert(info_map(nw_base)[w] == merged_info(sv.windows[w], adm[w]));
            } else {
                assert(!sv.windows.contains_key(w));
                assert(result@.windows[w] == adm[w]);
            }
        }
        assert forall|p: u32|
            result@.orphans.contains_key(p) <==> ((sv.orphans.contains_key(p) && !(table@[p]
                is Dead)) || pid_migrates(sv.windows, adm, hv2, table@, p)) by {
            if result@.orphans.contains_key(p) {
                assert(info_map(orphans_mid).contains_key(p));
            }
            if pid_migrates(sv.windows, adm, hv2, table@, p) {
                assert(table@[p] is Alive);
                assert(info_map(orphans_mid).contains_key(p));
            }
            if sv.orphans.contains_key(p) && !(table@[p] is Dead) {
                assert(info_map(orphans_mid).contains_key(p));
            }
        }
        assert forall|p: u32|
            #[trigger] result@.orphans.contains_key(p) implies (if pid_migrates(
            sv.windows,
            adm,
            hv2,
            table@,
            p,
        ) {
            exists|w: u32|
                #[trigger] window_dying(sv.windows, adm, w) && sv.windows[w].pids.contains(p)
                    && result@.orphans[p] == sv.windows[w]
        } else {
            result@.orphans[p] == sv.orphans[p]
        }) by {
            assert(info_map(orphans_mid).contains_key(p));
            assert(result@.orphans[p] == info_map(orphans_mid)[p]);
            if pid_migrates(sv.windows, adm, hv2, table@, p) {
                let w = choose|w: u32|
                    #[trigger] window_dying(sv.windows, adm, w) && sv.windows[w].pids.contains(p)
                        && info_map(orphans_mid)[p] == sv.windows[w];
                assert(window_dying(sv.windows, adm, w) && sv.windows[w].pids.contains(p)
                    && result@.orphans[p] == sv.windows[w]);
            }
        }
        assert(c_orph == (exists|p: u32|
            #[trigger] sv.orphans.contains_key(p) && table@[p] is Dead)) by {
            if c_orph {
                let p = choose|p: u32|
                    #[trigger] info_map(orphans_mid).contains_key(p) && table@[p] is Dead;
                assert(!pid_migrates(sv.windows, adm, hv2, table@, p));
                assert(sv.orphans.contains_key(p) && table@[p] is Dead);
            }
            if exists|p: u32| #[trigger] sv.orphans.contains_key(p) && table@[p] is Dead {
                let p = choose|p: u32|
                    #[trigger] sv.orphans.contains_key(p) && table@[p] is Dead;
                assert(info_map(orphans_mid).contains_key(p));
            }
        }
        assert(c_title == (exists|w: u32|
            #[trigger] adm.contains_key(w) && sv.windows.contains_key(w) && sv.windows[w].title
                != adm[w].title));
        assert(c_died == (exists|w: u32| #[trigger] window_dying(sv.windows, adm, w)));
        assert(c_new == (exists|w: u32|
            #[trigger] adm.contains_key(w) && !sv.windows.contains_key(w)));
        assert(changed == reconcile_changed(sv, adm, table@));
        assert forall|w: u32|
            #[trigger] result@.windows.contains_key(w) implies !hatred@.windows.contains_key(
            w,
        ) by {
            assert forall|i: int, j: int|
                0 <= i < j < raw_views(snapshot@).len() implies (#[trigger] raw_views(
                snapshot@,
            )[i]).window != (#[trigger] raw_views(snapshot@)[j]).window by {
                assert(raw_views(snapshot@)[i] == snapshot@[i]@);
                assert(raw_views(snapshot@)[j] == snapshot@[j]@);
            }
            lemma_admit_snap_facts(raw_views(snapshot@), hv, ign, table@);
            assert(adm.contains_key(w));
        }
    }
    (result, changed)
}

/// Gather every pid the coming step may consult: the snapshot's reported
/// pids that are not already suppressed, the tracked windows' pids, and the
/// orphans' pids.
fn collect_probe_targets(
    state: &TrackedState,
    hatred: &Hatred,
    snapshot: &Vec<RawWindow>,
) -> (targets: Vec<u32>)
    requires
        state.wf(),
        hatred.wf(),
        snapshot_wf(snapshot@),
    ensures
        forall|i: int| 0 <= i < targets@.len() ==> (#[trigger] targets@[i]) <= PID_LIMIT,
        forall|i: int, j: int|
            0 <= i < snapshot@.len() && 0 <= j < snapshot@[i].pids@.len() && !hatred@
                .pids.contains_key(#[trigger] snapshot@[i].pids@[j]) ==> targets@.contains(
                snapshot@[i].pids@[j],
            ),
        forall|i: int, j: int|
            0 <= i < state.windows@.len() && 0 <= j < state.windows@[i].1.pids@.len()
                ==> targets@.contains(#[trigger] state.windows@[i].1.pids@[j]),
        forall|i: int|
            0 <= i < state.orphans@.len() ==> targets@.contains(
                (#[trigger] state.orphans@[i]).0,
            ),
{
    let mut targets: Vec<u32> = Vec::new();
    let mut i: usize = 0;
    while i < snapshot.len()
        invariant
            hatred.wf(),
            snapshot_wf(snapshot@),
            i <= snapshot@.len(),
            forall|k: int| 0 <= k < targets@.len() ==> (#[trigger] targets@[k]) <= PID_LIMIT,
            forall|a: int, j: int|
                0 <= a < i && 0 <= j < snapshot@[a].pids@.len() && !hatred@.pids.contains_key(
                    #[trigger] snapshot@[a].pids@[j],
                ) ==> targets@.contains(snapshot@[a].pids@[j]),
        decreases snapshot@.len() - i,
    {
        let mut j: usize = 0;
        while j < snapshot[i].pids.len()
            invariant
                hatred.wf(),
                snapshot_wf(snapshot@),
                0 <= i < snapshot@.len(),
                j <= snapshot@[i as int].pids@.len(),
                forall|k: int|
                    0 <= k < targets@.len() ==> (#[trigger] targets@[k]) <= PID_LIMIT,
                forall|a: int, b: int|
                    0 <= a < i && 0 <= b < snapshot@[a].pids@.len() && !hatred@
                        .pids.contains_key(#[trigger] snapshot@[a].pids@[b])
                        ==> targets@.contains(snapshot@[a].pids@[b]),
                forall|b: int|
                    0 <= b < j && !hatred@.pids.contains_key(
                        #[trigger] snapshot@[i as int].pids@[b],
                    ) ==> targets@.contains(snapshot@[i as int].pids@[b]),
            decreases snapshot@[i as int].pids@.len() - j,
        {
            let p = snapshot[i].pids[j];
            let ghost tpre = targets@;
            if !hatred.is_pid_suppressed(p) {
                targets.push(p);
                proof {
                    lemma_push_contains(tpre, p);
                    assert(targets@[tpre.len() as int] == p);
                    assert(targets@.contains(p));
                    assert(snapshot@[i as int].wf());
                    assert(targets@.contains(snapshot@[i as int].pids@[j as int]));
                }
            }
            j += 1;
        }
        i += 1;
    }
    let mut i: usize = 0;
    while i < state.windows.len()
        invariant
            state.wf(),
            hatred.wf(),
            snapshot_wf(snapshot@),
            i <= state.windows@.len(),
            forall|k: int| 0 <= k < targets@.len() ==> (#[trigger] targets@[k]) <= PID_LIMIT,
            forall|a: int, j: int|
                0 <= a < snapshot@.len() && 0 <= j < snapshot@[a].pids@.len() && !hatred@
                    .pids.contains_key(#[trigger] snapshot@[a].pids@[j]) ==> targets@.contains(
                    snapshot@[a].pids@[j],
                ),
            forall|a: int, j: int|
                0 <= a < i && 0 <= j < state.windows@[a].1.pids@.len() ==> targets@.contains(
                    #[trigger] state.windows@[a].1.pids@[j],
                ),
        decreases state.windows@.len() - i,
    {
        let mut j: usize = 0;
        while j < state.windows[i].1.pids.len()
            invariant
                state.wf(),
                hatred.wf(),
                snapshot_wf(snapshot@),
                0 <= i < state.windows@.len(),
                j <= state.windows@[i as int].1.pids@.len(),
                forall|k: int|
                    0 <= k < targets@.len() ==> (#[trigger] targets@[k]) <= PID_LIMIT,
                forall|a: int, b: int|
                    0 <= a < snapshot@.len() && 0 <= b < snapshot@[a].pids@.len() && !hatred@
                        .pids.contains_key(#[trigger] snapshot@[a].pids@[b])
                        ==> targets@.contains(snapshot@[a].pids@[b]),
                forall|a: int, b: int|
                    0 <= a < i && 0 <= b < state.windows@[a].1.pids@.len()
                        ==> targets@.contains(#[trigger] state.windows@[a].1.pids@[b]),
                forall|b: int|
                    0 <= b < j ==> targets@.contains(
                        #[trigger] state.windows@[i as int].1.pids@[b],
                    ),
            decreases state.windows@[i as int].1.pids@.len() - j,
        {
            let p = state.windows[i].1.pids[j];
            let ghost tpre = targets@;
            targets.push(p);
            proof {
                lemma_push_contains(tpre, p);
                assert(targets@[tpre.len() as int] == p);
                assert(targets@.contains(p));
                assert(state.windows@[i as int].1.wf());
                assert(targets@.contains(state.windows@[i as int].1.pids@[j as int]));
            }
            j += 1;
        }
        i += 1;
    }
    let mut i: usize = 0;
    while i < state.orphans.len()
        invariant
            state.wf(),
            hatred.wf(),
            snapshot_wf(snapshot@),
            i <= state.orphans@.len(),
            forall|k: int| 0 <= k < targets@.len() ==> (#[trigger] targets@[k]) <= PID_LIMIT,
            forall|a: int, j: int|
                0 <= a < snapshot@.len() && 0 <= j < snapshot@[a].pids@.len() && !hatred@
                    .pids.contains_key(#[trigger] snapshot@[a].pids@[j]) ==> targets@.contains(
                    snapshot@[a].pids@[j],
                ),
            forall|a: int, j: int|
                0 <= a < state.windows@.len() && 0 <= j < state.windows@[a].1.pids@.len()
                    ==> targets@.contains(#[trigger] state.windows@[a].1.pids@[j]),
            forall|a: int|
                0 <= a < i ==> targets@.contains((#[trigger] state.orphans@[a]).0),
        decreases state.orphans@.len() - i,
    {
        let p = state.orphans[i].0;
        let ghost tpre = targets@;
        targets.push(p);
        proof {
            lemma_push_contains(tpre, p);
            assert(targets@[tpre.len() as int] == p);
            assert(targets@.contains(p));
            assert(targets@.contains(state.orphans@[i as int].0));
        }
        i += 1;
    }
    targets
}


/// One live reconciliation: collect the pids the step may ask about, probe
/// each once, and run the pure step on the resulting verdict table. The
/// result is a reconciliation step for some table of verdicts; every
/// property that holds of each step regardless of verdicts holds of it.
pub fn reconcile_live(
    state: TrackedState,
    hatred: &mut Hatred,
    config: &Config,
    snapshot: &Vec<RawWindow>,
) -> (res: (TrackedState, bool))
    requires
        state.wf(),
        old(hatred).wf(),
        snapshot_wf(snapshot@),
        consistent(state@, old(hatred)@),
    ensures
        res.0.wf(),
        final(hatred).wf(),
        consistent(res.0@, final(hatred)@),
        exists|live: Map<u32, Liveness>|
            #[trigger] reconcile_rel(
                state@,
                old(hatred)@,
                raw_views(snapshot@),
                pattern_views(config.ignore@),
                live,
                res.0@,
                final(hatred)@,
                res.1,
            ),
        // Whatever the probes answered: the ledger only grows, a suppressed
        // window is never tracked again, and a suppressed pid never
        // migrates into the orphan map.
        forall|w: u32|
            #[trigger] old(hatred)@.windows.contains_key(w) ==> final(hatred)@
                .windows.contains_key(w) && !res.0@.windows.contains_key(w),
        forall|p: u32|
            #[trigger] old(hatred)@.pids.contains_key(p) ==> final(hatred)@.pids.contains_key(
                p,
            ),
        forall|p: u32|
            #[trigger] old(hatred)@.pids.contains_key(p) && #[trigger] res.0@
                .orphans.contains_key(p) ==> state@.orphans.contains_key(p),
{
    let targets = collect_probe_targets(&state, hatred, snapshot);
    let mut table = LivenessTable::new();
    table.probe_all(&targets);
    proof {
        assert forall|i: int, j: int|
            0 <= i < snapshot@.len() && 0 <= j < snapshot@[i].pids@.len() && !hatred@
                .pids.contains_key(#[trigger] snapshot@[i].pids@[j]) implies table@.contains_key(
            snapshot@[i].pids@[j],
        ) by {
            let k = choose|k: int| 0 <= k < targets@.len() && targets@[k] == snapshot@[i].pids@[j];
            assert(table@.contains_key(targets@[k]));
        }
        assert forall|p: u32| #[trigger] state@.orphans.contains_key(p) implies table@
            .contains_key(p) by {
            lemma_alist_dom(info_entries(state.orphans@));
            let j = choose|j: int|
                0 <= j < info_entries(state.orphans@).len() && (#[trigger] info_entries(
                    state.orphans@,
                )[j]).0 == p;
            assert(state.orphans@[j].0 == p);
            assert(targets@.contains(state.orphans@[j].0));
            let k = choose|k: int| 0 <= k < targets@.len() && targets@[k] == p;
            assert(table@.contains_key(targets@[k]));
        }
        assert forall|w: u32, p: u32|
            #[trigger] state@.windows.contains_key(w) && #[trigger] state@.windows[w]
                .pids.contains(p) implies table@.contains_key(p) by {
            lemma_alist_dom(info_entries(state.windows@));
            let j = choose|j: int|
                0 <= j < info_entries(state.windows@).len() && (#[trigger] info_entries(
                    state.windows@,
                )[j]).0 == w;
            assert(state.windows@[j].0 == w);
            lemma_alist_index(info_entries(state.windows@), j);
            assert(state@.windows[w] == state.windows@[j].1@);
            assert(state.windows@[j].1.pids@.contains(p));
            let b = choose|b: int|
                0 <= b < state.windows@[j].1.pids@.len() && state.windows@[j].1.pids@[b] == p;
            assert(targets@.contains(state.windows@[j].1.pids@[b]));
            let k = choose|k: int| 0 <= k < targets@.len() && targets@[k] == p;
            assert(table@.contains_key(targets@[k]));
        }
    }
    let res = reconcile_step(state, hatred, config, snapshot, &table);
    proof {
        assert(reconcile_rel(
            state@,
            old(hatred)@,
            raw_views(snapshot@),
            pattern_views(config.ignore@),
            table@,
            res.0@,
            hatred@,
            res.1,
        ));
        assert forall|i: int, j: int|
            0 <= i < j < raw_views(snapshot@).len() implies (#[trigger] raw_views(
            snapshot@,
        )[i]).window != (#[trigger] raw_views(snapshot@)[j]).window by {
            assert(raw_views(snapshot@)[i] == snapshot@[i]@);
            assert(raw_views(snapshot@)[j] == snapshot@[j]@);
        }
        lemma_monotonic_suppression(
            state@,
            old(hatred)@,
            raw_views(snapshot@),
            pattern_views(config.ignore@),
            table@,
            res.0@,
            hatred@,
            res.1,
        );
    }
    res
}

/// The record clears the per-record filters against the *initial* ledger:
/// its window is not suppressed, its class was read, and it is not ignored.
/// With pairwise-distinct windows this is exactly when the fold admits it.
pub open spec fn record_participates(
    snap: Seq<RawView>,
    hat: HatredView,
    ignore: Seq<Seq<char>>,
    i: int,
) -> bool {
    &&& 0 <= i < snap.len()
    &&& !hat.windows.contains_key(snap[i].window)
    &&& snap[i].class is Some
    &&& !any_match(ignore, snap[i].class->Some_0)
}

/// Finer bookkeeping about what one admission pass adds to the ledger:
/// window additions are exactly the unread-class records, and pid
/// additions are exactly the participating records' non-alive pids.
pub proof fn lemma_admit_snap_additions(
    snap: Seq<RawView>,
    hat: HatredView,
    ignore: Seq<Seq<char>>,
    live: Map<u32, Liveness>,
)
    requires
        views_distinct(snap),
    ensures
        ({
            let r = admit_snap(snap, hat, ignore, live);
            &&& forall|w: u32|
                #[trigger] r.1.windows.contains_key(w) && !hat.windows.contains_key(w)
                    ==> exists|i: int|
                    0 <= i < snap.len() && (#[trigger] snap[i]).window == w && snap[i].class
                        is None
            &&& forall|i: int|
                0 <= i < snap.len() && !hat.windows.contains_key((#[trigger] snap[i]).window)
                    && snap[i].class is None ==> r.1.windows.contains_key(snap[i].window)
            &&& forall|p: u32|
                #[trigger] r.1.pids.contains_key(p) && !hat.pids.contains_key(p) ==> !(live[p]
                    is Alive)
            &&& forall|i: int, j: int|
                record_participates(snap, hat, ignore, i) && 0 <= j < snap[i].pids.len() && !((
                #[trigger] live[snap[i].pids[j]]) is Alive) ==> r.1.pids.contains_key(
                    #[trigger] snap[i].pids[j],
                )
            &&& forall|p: u32|
                #[trigger] r.1.pids.contains_key(p) && !hat.pids.contains_key(p) ==> exists|
                i: int,
                |
                    #[trigger] record_participates(snap, hat, ignore, i) && snap[i].pids.contains(
                        p,
                    )
        }),
    decreases snap.len(),
{
    let r = admit_snap(snap, hat, ignore, live);
    if snap.len() > 0 {
        assert forall|i: int, j: int|
            0 <= i < j < snap.drop_last().len() implies (#[trigger] snap.drop_last()[i]).window
            != (#[trigger] snap.drop_last()[j]).window by {
            assert(snap.drop_last()[i] == snap[i]);
            assert(snap.drop_last()[j] == snap[j]);
        }
        lemma_admit_snap_additions(snap.drop_last(), hat, ignore, live);
        lemma_admit_snap_facts(snap.drop_last(), hat, ignore, live);
        let rec = admit_snap(snap.drop_last(), hat, ignore, live);
        let last = snap.last();
        assert(snap[snap.len() - 1] == last);
        // The fold's suppression check on the last record agrees with the
        // initial ledger: additions so far carry other windows.
        assert(rec.1.windows.contains_key(last.window) == hat.windows.contains_key(
            last.window,
        )) by {
            if rec.1.windows.contains_key(last.window) && !hat.windows.contains_key(
                last.window,
            ) {
                let i = choose|i: int|
                    0 <= i < snap.drop_last().len() && (#[trigger] snap.drop_last()[i]).window
                        == last.window && snap.drop_last()[i].class is None;
                assert(snap[i] == snap.drop_last()[i]);
                assert(snap[i].window != snap[snap.len() - 1].window);
            }
        }
        if !rec.1.windows.contains_key(last.window) && last.class is Some && !any_match(
            ignore,
            last.class->Some_0,
        ) {
            lemma_admit_pids_facts(last.pids, rec.1, live);
        }
        // Window additions, both directions.
        assert forall|w: u32|
            #[trigger] r.1.windows.contains_key(w) && !hat.windows.contains_key(w) implies
            exists|i: int|
            0 <= i < snap.len() && (#[trigger] snap[i]).window == w && snap[i].class
                is None by {
            if rec.1.windows.contains_key(w) {
                let i = choose|i: int|
                    0 <= i < snap.drop_last().len() && (#[trigger] snap.drop_last()[i]).window
                        == w && snap.drop_last()[i].class is None;
                assert(snap[i] == snap.drop_last()[i]);
                assert(snap[i].window == w && snap[i].class is None);
            } else {
                assert(snap[snap.len() - 1].window == w && snap[snap.len() - 1].class is None);
            }
        }
        assert forall|i: int|
            0 <= i < snap.len() && !hat.windows.contains_key((#[trigger] snap[i]).window)
                && snap[i].class is None implies r.1.windows.contains_key(snap[i].window) by {
            if i < snap.len() - 1 {
                assert(snap.drop_last()[i] == snap[i]);
                assert(rec.1.windows.contains_key(snap[i].window));
            }
        }
        // Pid additions, all three clauses.
        assert forall|p: u32|
            #[trigger] r.1.pids.contains_key(p) && !hat.pids.contains_key(p) implies !(live[p]
            is Alive) by {
            if rec.1.pids.contains_key(p) {
            } else {
                assert(!rec.1.windows.contains_key(last.window) && last.class is Some
                    && !any_match(ignore, last.class->Some_0));
            }
        }
        assert forall|i: int, j: int|
            record_participates(snap, hat, ignore, i) && 0 <= j < snap[i].pids.len() && !((
            #[trigger] live[snap[i].pids[j]]) is Alive) implies r.1.pids.contains_key(
            #[trigger] snap[i].pids[j],
        ) by {
            if i < snap.len() - 1 {
                assert(snap.drop_last()[i] == snap[i]);
                assert(record_participates(snap.drop_last(), hat, ignore, i));
                assert(rec.1.pids.contains_key(snap[i].pids[j]));
            } else {
                assert(snap[i] == last);
                assert(last.pids[j] == snap[i].pids[j]);
                assert(last.pids.contains(snap[i].pids[j]));
            }
        }
        assert forall|p: u32|
            #[trigger] r.1.pids.contains_key(p) && !hat.pids.contains_key(p) implies exists|
            i: int,
        |
            #[trigger] record_participates(snap, hat, ignore, i) && snap[i].pids.contains(
                p,
            ) by {
            if rec.1.pids.contains_key(p) {
                let i = choose|i: int|
                    #[trigger] record_participates(snap.drop_last(), hat, ignore, i)
                        && snap.drop_last()[i].pids.contains(p);
                assert(snap.drop_last()[i] == snap[i]);
                assert(record_participates(snap, hat, ignore, i));
                assert(snap[i].pids.contains(p));
            } else {
                assert(!rec.1.windows.contains_key(last.window) && last.class is Some
                    && !any_match(ignore, last.class->Some_0));
                let pr = admit_pids(last.pids, rec.1, live);
                assert(pr.1.pids.contains_key(p));
                assert(last.pids.contains(p));
                assert(record_participates(snap, hat, ignore, snap.len() - 1));
                assert(snap[snap.len() - 1].pids.contains(p));
            }
        }
    }
}

/// Folding one window's pids against a larger ledger that already holds
/// every suppression the smaller fold would make changes nothing: the
/// ledger stays as it is and the surviving pid set is the same.
proof fn lemma_admit_pids_stable(
    pids: Seq<u32>,
    h: HatredView,
    hbig: HatredView,
    live: Map<u32, Liveness>,
)
    requires
        forall|p: u32| #[trigger] h.pids.contains_key(p) ==> hbig.pids.contains_key(p),
        forall|p: u32|
            pids.contains(p) && !((#[trigger] live[p]) is Alive) ==> hbig.pids.contains_key(p),
        forall|p: u32|
            #[trigger] hbig.pids.contains_key(p) && !h.pids.contains_key(p) ==> !(live[p]
                is Alive),
    ensures
        admit_pids(pids, hbig, live).1 == hbig,
        admit_pids(pids, hbig, live).0 == admit_pids(pids, h, live).0,
    decreases pids.len(),
{
    if pids.len() > 0 {
        assert forall|p: u32|
            pids.drop_last().contains(p) && !((#[trigger] live[p]) is Alive) implies hbig
            .pids.contains_key(p) by {
            let i = choose|i: int|
                0 <= i < pids.drop_last().len() && pids.drop_last()[i] == p;
            assert(pids[i] == p);
            assert(pids.contains(p));
        }
        lemma_admit_pids_stable(pids.drop_last(), h, hbig, live);
        lemma_admit_pids_facts(pids.drop_last(), h, live);
        let rec_h = admit_pids(pids.drop_last(), h, live);
        let rec_b = admit_pids(pids.drop_last(), hbig, live);
        let p = pids.last();
        assert(pids[pids.len() - 1] == p);
        assert(pids.contains(p));
        assert(rec_b.1 == hbig);
        if hbig.pids.contains_key(p) {
            // The big fold skips p. The small fold either skips it too or
            // suppresses it again; either way the surviving set is the same.
            if !rec_h.1.pids.contains_key(p) {
                assert(!h.pids.contains_key(p));
                assert(!(live[p] is Alive));
            }
        } else {
            assert(live[p] is Alive);
            assert(!rec_h.1.pids.contains_key(p)) by {
                if rec_h.1.pids.contains_key(p) {
                    assert(h.pids.contains_key(p) || !(live[p] is Alive));
                    assert(hbig.pids.contains_key(p));
                }
            }
        }
    }
}

/// Running the admission pass again, against the ledger it produced,
/// admits the same windows with the same records and leaves the ledger
/// untouched.
proof fn lemma_admit_snap_stable(
    snap: Seq<RawView>,
    hat: HatredView,
    hbig: HatredView,
    ignore: Seq<Seq<char>>,
    live: Map<u32, Liveness>,
)
    requires
        views_distinct(snap),
        forall|w: u32| #[trigger] hat.windows.contains_key(w) ==> hbig.windows.contains_key(w),
        forall|p: u32| #[trigger] hat.pids.contains_key(p) ==> hbig.pids.contains_key(p),
        forall|i: int|
            0 <= i < snap.len() && (#[trigger] snap[i]).class is Some && !hat
                .windows.contains_key(snap[i].window) ==> !hbig.windows.contains_key(
                snap[i].window,
            ),
        forall|i: int|
            0 <= i < snap.len() && !hat.windows.contains_key((#[trigger] snap[i]).window)
                && snap[i].class is None ==> hbig.windows.contains_key(snap[i].window),
        forall|p: u32|
            #[trigger] hbig.pids.contains_key(p) && !hat.pids.contains_key(p) ==> !(live[p]
                is Alive),
        forall|i: int, j: int|
            record_participates(snap, hat, ignore, i) && 0 <= j < snap[i].pids.len() && !((
            #[trigger] live[snap[i].pids[j]]) is Alive) ==> hbig.pids.contains_key(
                #[trigger] snap[i].pids[j],
            ),
    ensures
        admit_snap(snap, hbig, ignore, live).1 == hbig,
        forall|w: u32| #![trigger admit_snap(snap, hbig, ignore, live).0.contains_key(w)]
            admit_snap(snap, hbig, ignore, live).0.contains_key(w) <==> admit_snap(
                snap,
                hat,
                ignore,
                live,
            ).0.contains_key(w),
        forall|w: u32|
            #[trigger] admit_snap(snap, hbig, ignore, live).0.contains_key(w) ==> admit_snap(
                snap,
                hbig,
                ignore,
                live,
            ).0[w] == admit_snap(snap, hat, ignore, live).0[w],
    decreases snap.len(),
{
    if snap.len() > 0 {
        assert forall|i: int, j: int|
            0 <= i < j < snap.drop_last().len() implies (#[trigger] snap.drop_last()[i]).window
            != (#[trigger] snap.drop_last()[j]).window by {
            assert(snap.drop_last()[i] == snap[i]);
            assert(snap.drop_last()[j] == snap[j]);
        }
        assert forall|i: int|
            0 <= i < snap.drop_last().len() implies (#[trigger] snap.drop_last()[i])
            == snap[i] by {}
        assert forall|i: int, j: int|
            record_participates(snap.drop_last(), hat, ignore, i) && 0 <= j < snap.drop_last()[
                i
            ].pids.len() && !((#[trigger] live[snap.drop_last()[i].pids[j]]) is Alive) implies
            hbig.pids.contains_key(snap.drop_last()[i].pids[j]) by {
            assert(snap.drop_last()[i] == snap[i]);
            assert(record_participates(snap, hat, ignore, i));
        }
        lemma_admit_snap_stable(snap.drop_last(), hat, hbig, ignore, live);
        lemma_admit_snap_facts(snap.drop_last(), hat, ignore, live);
        lemma_admit_snap_additions(snap.drop_last(), hat, ignore, live);
        let rec_h = admit_snap(snap.drop_last(), hat, ignore, live);
        let rec_b = admit_snap(snap.drop_last(), hbig, ignore, live);
        let last = snap.last();
        assert(snap[snap.len() - 1] == last);
        assert(rec_b.1 == hbig);
        // The small fold's suppression check on the last record agrees with
        // the initial ledger.
        assert(rec_h.1.windows.contains_key(last.window) == hat.windows.contains_key(
            last.window,
        )) by {
            if rec_h.1.windows.contains_key(last.window) && !hat.windows.contains_key(
                last.window,
            ) {
                let i = choose|i: int|
                    0 <= i < snap.drop_last().len() && (#[trigger] snap.drop_last()[i]).window
                        == last.window && snap.drop_last()[i].class is None;
                assert(snap[i] == snap.drop_last()[i]);
                assert(snap[i].window != snap[snap.len() - 1].window);
            }
        }
        if hat.windows.contains_key(last.window) {
            assert(hbig.windows.contains_key(last.window));
        } else {
            match last.class {
                None => {
                    // Suppressed by the small fold; already in the big ledger.
                    assert(hbig.windows.contains_key(last.window));
                },
                Some(class) => {
                    assert(!hbig.windows.contains_key(last.window));
                    if !any_match(ignore, class) {
                        // Both folds admit the record; the pid folds agree.
                        assert(record_participates(snap, hat, ignore, snap.len() - 1));
                        assert forall|p: u32|
                            #[trigger] rec_h.1.pids.contains_key(p) implies hbig
                            .pids.contains_key(p) by {
                            if !hat.pids.contains_key(p) {
                                let i = choose|i: int|
                                    #[trigger] record_participates(
                                        snap.drop_last(),
                                        hat,
                                        ignore,
                                        i,
                                    ) && snap.drop_last()[i].pids.contains(p);
                                assert(snap.drop_last()[i] == snap[i]);
                                assert(record_participates(snap, hat, ignore, i));
                                let j = choose|j: int|
                                    0 <= j < snap[i].pids.len() && snap[i].pids[j] == p;
                                assert(!(live[p] is Alive));
                                assert(hbig.pids.contains_key(snap[i].pids[j]));
                            }
                        }
                        assert forall|p: u32|
                            last.pids.contains(p) && !((#[trigger] live[p]) is Alive) implies
                            hbig.pids.contains_key(p) by {
                            let j = choose|j: int|
                                0 <= j < last.pids.len() && last.pids[j] == p;
                            assert(snap[snap.len() - 1].pids[j] == p);
                            assert(hbig.pids.contains_key(snap[snap.len() - 1].pids[j]));
                        }
                        assert forall|p: u32|
                            #[trigger] hbig.pids.contains_key(p) && !rec_h.1.pids.contains_key(
                                p,
                            ) implies !(live[p] is Alive) by {
                            assert(!hat.pids.contains_key(p));
                        }
                        lemma_admit_pids_stable(last.pids, rec_h.1, hbig, live);
                    }
                },
            }
        }
    }
}

// ---------------------------------------------------------------------------
// Laws of the reconciler
// ---------------------------------------------------------------------------

/// Idempotence: reconciling the same snapshot twice in a row, with the
/// same liveness verdicts, leaves the tracked state and the ledger of the
/// first step unchanged and reports no meaningful change the second time.
pub proof fn lemma_reconcile_idempotent(
    sv: StateView,
    hv: HatredView,
    snap: Seq<RawView>,
    ignore: Seq<Seq<char>>,
    live: Map<u32, Liveness>,
    sv1: StateView,
    hv1: HatredView,
    c1: bool,
    sv2: StateView,
    hv2: HatredView,
    c2: bool,
)
    requires
        views_distinct(snap),
        reconcile_rel(sv, hv, snap, ignore, live, sv1, hv1, c1),
        reconcile_rel(sv1, hv1, snap, ignore, live, sv2, hv2, c2),
    ensures
        sv2.windows == sv1.windows,
        sv2.orphans == sv1.orphans,
        hv2 == hv1,
        c2 == false,
{
    let a1 = admit_snap(snap, hv, ignore, live);
    let adm1 = a1.0;
    lemma_admit_snap_facts(snap, hv, ignore, live);
    lemma_admit_snap_additions(snap, hv, ignore, live);
    assert forall|i: int|
        0 <= i < snap.len() && (#[trigger] snap[i]).class is Some && !hv.windows.contains_key(
            snap[i].window,
        ) implies !hv1.windows.contains_key(snap[i].window) by {
        if hv1.windows.contains_key(snap[i].window) {
            let k = choose|k: int|
                0 <= k < snap.len() && (#[trigger] snap[k]).window == snap[i].window && snap[k]
                    .class is None;
            assert(k == i);
        }
    }
    lemma_admit_snap_stable(snap, hv, hv1, ignore, live);
    let a2 = admit_snap(snap, hv1, ignore, live);
    let adm2 = a2.0;
    assert(hv2 == hv1);
    // No window is dying in the second step, so nothing migrates.
    assert forall|w: u32| !(#[trigger] window_dying(sv1.windows, adm2, w)) by {
        if window_dying(sv1.windows, adm2, w) {
            assert(sv1.windows.contains_key(w));
            assert(adm1.contains_key(w));
            assert(adm2.contains_key(w));
        }
    }
    assert forall|p: u32| !(#[trigger] pid_migrated(sv1.windows, adm2, p)) by {
        if pid_migrated(sv1.windows, adm2, p) {
            let w = choose|w: u32|
                #[trigger] window_dying(sv1.windows, adm2, w) && sv1.windows[w].pids.contains(
                    p,
                );
        }
    }
    // Re-admitting a window it already tracks changes nothing about it.
    assert forall|w: u32| #[trigger] adm2.contains_key(w) implies sv2.windows[w]
        == sv1.windows[w] by {
        assert(adm1.contains_key(w));
        assert(adm2[w] == adm1[w]);
        assert(sv1.windows.contains_key(w));
        assert(sv2.windows[w] == merged_info(sv1.windows[w], adm1[w]));
        if sv.windows.contains_key(w) {
            assert(sv1.windows[w] == merged_info(sv.windows[w], adm1[w]));
            assert(merged_info(sv1.windows[w], adm1[w]).pids =~= sv1.windows[w].pids);
            assert(merged_info(sv1.windows[w], adm1[w]) =~= sv1.windows[w]);
        } else {
            assert(sv1.windows[w] == adm1[w]);
            assert(merged_info(adm1[w], adm1[w]).pids =~= adm1[w].pids);
            assert(merged_info(sv1.windows[w], adm1[w]) =~= sv1.windows[w]);
        }
    }
    assert forall|w: u32|
        sv2.windows.contains_key(w) == sv1.windows.contains_key(w) by {
        assert(sv2.windows.contains_key(w) == adm2.contains_key(w));
        assert(sv1.windows.contains_key(w) == adm1.contains_key(w));
    }
    assert(sv2.windows =~= sv1.windows);
    // Orphans: nothing migrates, and every first-step orphan already
    // survived its probe, so the map passes through unchanged.
    assert forall|p: u32|
        sv2.orphans.contains_key(p) == sv1.orphans.contains_key(p) by {
        if sv1.orphans.contains_key(p) {
            assert(!(live[p] is Dead));
        }
    }
    assert forall|p: u32| #[trigger] sv2.orphans.contains_key(p) implies sv2.orphans[p]
        == sv1.orphans[p] by {
        assert(!pid_migrates(sv1.windows, adm2, a2.1, live, p));
    }
    assert(sv2.orphans =~= sv1.orphans);
    // And none of the four kinds of meaningful change can fire.
    assert(c2 == reconcile_changed(sv1, adm2, live));
    assert(!(exists|w: u32|
        #[trigger] adm2.contains_key(w) && sv1.windows.contains_key(w) && sv1.windows[w].title
            != adm2[w].title)) by {
        assert forall|w: u32|
            #[trigger] adm2.contains_key(w) && sv1.windows.contains_key(w) implies sv1.windows[
            w
        ].title == adm2[w].title by {
            assert(adm2[w] == adm1[w]);
            if sv.windows.contains_key(w) {
                assert(sv1.windows[w] == merged_info(sv.windows[w], adm1[w]));
            } else {
                assert(sv1.windows[w] == adm1[w]);
            }
        }
    }
    assert(!(exists|w: u32| #[trigger] adm2.contains_key(w) && !sv1.windows.contains_key(w)));
    assert(!(exists|p: u32| #[trigger] sv1.orphans.contains_key(p) && live[p] is Dead)) by {
        assert forall|p: u32| #[trigger] sv1.orphans.contains_key(p) implies !(live[p]
            is Dead) by {}
    }
    assert(!c2);
}

/// Monotonic suppression: across one reconciliation step the ledger only
/// grows, a window that was suppressed going in is not tracked coming out,
/// and a pid that was suppressed going in is never admitted from the
/// snapshot — it can appear in a tracked window's pid set only if it
/// already was there before the step, and in the orphan map only as the
/// entry it already had (it never migrates there anew).
pub proof fn lemma_monotonic_suppression(
    sv: StateView,
    hv: HatredView,
    snap: Seq<RawView>,
    ignore: Seq<Seq<char>>,
    live: Map<u32, Liveness>,
    sv2: StateView,
    hv2: HatredView,
    changed: bool,
)
    requires
        views_distinct(snap),
        reconcile_rel(sv, hv, snap, ignore, live, sv2, hv2, changed),
    ensures
        forall|w: u32|
            #[trigger] hv.windows.contains_key(w) ==> hv2.windows.contains_key(w)
                && hv2.windows[w] == hv.windows[w],
        forall|p: u32|
            #[trigger] hv.pids.contains_key(p) ==> hv2.pids.contains_key(p) && hv2.pids[p]
                == hv.pids[p],
        forall|w: u32| #[trigger] hv.windows.contains_key(w) ==> !sv2.windows.contains_key(w),
        forall|w: u32, p: u32|
            #[trigger] hv.pids.contains_key(p) && #[trigger] sv2.windows.contains_key(w)
                && sv2.windows[w].pids.contains(p) ==> sv.windows.contains_key(w)
                && sv.windows[w].pids.contains(p),
        forall|p: u32|
            #[trigger] hv.pids.contains_key(p) && #[trigger] sv2.orphans.contains_key(p)
                ==> sv.orphans.contains_key(p) && sv2.orphans[p] == sv.orphans[p],
{
    lemma_admit_snap_facts(snap, hv, ignore, live);
    let a = admit_snap(snap, hv, ignore, live);
    let adm = a.0;
    assert forall|p: u32|
        #[trigger] hv.pids.contains_key(p) && #[trigger] sv2.orphans.contains_key(p) implies sv
        .orphans.contains_key(p) && sv2.orphans[p] == sv.orphans[p] by {
        assert(a.1.pids.contains_key(p));
        assert(!pid_migrates(sv.windows, adm, a.1, live, p));
    }
    assert forall|w: u32| #[trigger] hv.windows.contains_key(w) implies !sv2
        .windows.contains_key(w) by {
        if sv2.windows.contains_key(w) {
            assert(adm.contains_key(w));
            assert(!a.1.windows.contains_key(w));
        }
    }
    assert forall|w: u32, p: u32|
        #[trigger] hv.pids.contains_key(p) && #[trigger] sv2.windows.contains_key(w)
            && sv2.windows[w].pids.contains(p) implies sv.windows.contains_key(w)
        && sv.windows[w].pids.contains(p) by {
        assert(adm.contains_key(w));
        assert(a.1.pids.contains_key(p));
        if adm[w].pids.contains(p) {
            assert(!a.1.pids.contains_key(p));
        }
        if sv.windows.contains_key(w) {
            assert(sv2.windows[w] == merged_info(sv.windows[w], adm[w]));
            assert(sv.windows[w].pids.contains(p) || adm[w].pids.contains(p));
        } else {
            assert(sv2.windows[w] == adm[w]);
        }
    }
}

/// Window-to-orphan conservation: when a tracked window vanishes from the
/// snapshot, each of its pids that is not suppressed and probed alive this
/// cycle enters the orphan map, carrying some vanished owner's last-known
/// record — the window's own, when it was the pid's only vanished owner.
/// A pid that probed dead is not in the orphan map after the step, and a
/// suppressed one never migrates there (see `lemma_monotonic_suppression`).
pub proof fn lemma_window_orphan_conservation(
    sv: StateView,
    hv: HatredView,
    snap: Seq<RawView>,
    ignore: Seq<Seq<char>>,
    live: Map<u32, Liveness>,
    sv2: StateView,
    hv2: HatredView,
    changed: bool,
    w: u32,
    p: u32,
)
    requires
        views_distinct(snap),
        reconcile_rel(sv, hv, snap, ignore, live, sv2, hv2, changed),
        sv.windows.contains_key(w),
        !sv2.windows.contains_key(w),
        sv.windows[w].pids.contains(p),
    ensures
        (live[p] is Alive && !hv.pids.contains_key(p)) ==> sv2.orphans.contains_key(p),
        live[p] is Dead ==> !sv2.orphans.contains_key(p),
        ((live[p] is Alive && !hv.pids.contains_key(p)) && (forall|w2: u32|
            #[trigger] window_dying(sv.windows, admit_snap(snap, hv, ignore, live).0, w2)
                && sv.windows[w2].pids.contains(p) ==> w2 == w)) ==> sv2.orphans[p]
            == sv.windows[w],
{
    let a = admit_snap(snap, hv, ignore, live);
    let adm = a.0;
    assert(!adm.contains_key(w));
    assert(window_dying(sv.windows, adm, w));
    assert(pid_migrated(sv.windows, adm, p));
    if live[p] is Alive && !hv.pids.contains_key(p) {
        // An alive pid cannot be among this cycle's ledger additions,
        // which are all dead or erroring, so it is not suppressed at all.
        assert(!a.1.pids.contains_key(p)) by {
            lemma_admit_snap_additions(snap, hv, ignore, live);
        }
        assert(pid_migrates(sv.windows, adm, a.1, live, p));
        assert(sv2.orphans.contains_key(p));
        if forall|w2: u32|
            #[trigger] window_dying(sv.windows, adm, w2) && sv.windows[w2].pids.contains(p)
                ==> w2 == w {
            let w1 = choose|w1: u32|
                #[trigger] window_dying(sv.windows, adm, w1) && sv.windows[w1].pids.contains(p)
                    && sv2.orphans[p] == sv.windows[w1];
            assert(w1 == w);
        }
    }
}

} // verus!
