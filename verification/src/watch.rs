//! The decisions of the file watcher's drain: changes are gathered into a batch that
//! closes after 150 ms without a new event, or 1000 ms after its first event, and the
//! batch is then applied to the index.
//!
//! The caller waits for events as the actions say and reports what happened; this
//! module decides what to wait for next and which paths a batch applies.
use vstd::prelude::*;
use crate::project::{indexable, is_indexable};

verus! {

/// The longest quiet spell, in milliseconds, that a batch waits for another event.
pub const DEBOUNCE_MS: u64 = 150;

/// The longest time, in milliseconds, that a batch stays open after its first event.
pub const MAX_WINDOW_MS: u64 = 1000;

/// What the caller saw while waiting.
pub enum DrainEvent {
    /// A watcher event: the paths it names, and whether it only reports an access
    /// (a read or an open), which changes nothing. A watcher error is an event with no
    /// paths.
    Received { paths: Vec<String>, is_access: bool },
    /// The wait ran out without an event.
    TimedOut,
    /// The watcher is gone.
    Disconnected,
}

/// What the caller does next.
#[derive(PartialEq, Eq, Structural, Clone, Copy, Debug)]
pub enum DrainAction {
    /// Wait for the next event, for as long as it takes.
    Listen,
    /// Wait for the next event, at most `timeout_ms` milliseconds.
    Wait { timeout_ms: u64 },
    /// Take the batch and apply it.
    Flush,
    /// Stop draining.
    Stop,
}

/// The texts of a sequence of strings.
pub open spec fn text_views(s: Seq<String>) -> Seq<Seq<char>> {
    s.map_values(|x: String| x@)
}

/// The drain between batches, or while one is open.
pub struct DrainState {
    pending: Vec<String>,
    collecting: bool,
    deadline_ms: u64,
}

/// The drain's state as a mathematical value: the paths gathered so far, whether a
/// batch is open, and when it closes.
pub struct DrainView {
    pub pending: Seq<Seq<char>>,
    pub collecting: bool,
    pub deadline_ms: u64,
}

impl View for DrainState {
    type V = DrainView;

    closed spec fn view(&self) -> DrainView {
        DrainView {
            pending: text_views(self.pending@),
            collecting: self.collecting,
            deadline_ms: self.deadline_ms,
        }
    }
}

/// The action after an event at `now_ms` in a batch that closes at `deadline_ms`:
/// flush once the deadline has come, else wait the quiet spell or what is left of
/// the window, whichever is shorter.
pub open spec fn next_action(now_ms: u64, deadline_ms: u64) -> DrainAction {
    if now_ms >= deadline_ms {
        DrainAction::Flush
    } else if deadline_ms - now_ms < DEBOUNCE_MS {
        DrainAction::Wait { timeout_ms: (deadline_ms - now_ms) as u64 }
    } else {
        DrainAction::Wait { timeout_ms: DEBOUNCE_MS }
    }
}

/// Whether `std::path::Path::new(a) == std::path::Path::new(b)`: the two paths have
/// the same components, so that `/a//b.ts` and `/a/b.ts` are one path.
pub uninterp spec fn same_path(a: Seq<char>, b: Seq<char>) -> bool;

/// Calls `<std::path::Path as PartialEq>::eq`.
#[verifier::external_body]
fn paths_equal(a: &str, b: &str) -> (r: bool)
    ensures
        r == same_path(a@, b@),
{
    std::path::Path::new(a) == std::path::Path::new(b)
}

/// Whether some path of `s` is the same path as `p`.
pub open spec fn lists_path(s: Seq<Seq<char>>, p: Seq<char>) -> bool {
    exists|i: int| 0 <= i < s.len() && same_path(#[trigger] s[i], p)
}

/// No path of `s` is the same path as a later one.
pub open spec fn distinct_paths(s: Seq<Seq<char>>) -> bool {
    forall|i: int, j: int| 0 <= i < j < s.len() ==> !same_path(#[trigger] s[i], #[trigger] s[j])
}

/// `s` after taking in `ps` in order, each path added unless `s` already has the same
/// path.
pub open spec fn absorb(s: Seq<Seq<char>>, ps: Seq<Seq<char>>) -> Seq<Seq<char>>
    decreases ps.len(),
{
    if ps.len() == 0 {
        s
    } else {
        let t = absorb(s, ps.drop_last());
        if lists_path(t, ps.last()) {
            t
        } else {
            t.push(ps.last())
        }
    }
}

fn lists_same_path(v: &Vec<String>, p: &str) -> (r: bool)
    ensures
        r == lists_path(text_views(v@), p@),
{
    let mut i: usize = 0;
    while i < v.len()
        invariant
            i <= v@.len(),
            forall|k: int| 0 <= k < i ==> !same_path((#[trigger] v@[k])@, p@),
        decreases v.len() - i,
    {
        if paths_equal(v[i].as_str(), p) {
            proof {
                assert(text_views(v@)[i as int] == v@[i as int]@);
            }
            return true;
        }
        i = i + 1;
    }
    proof {
        if lists_path(text_views(v@), p@) {
            let k = choose|k: int|
                0 <= k < text_views(v@).len() && same_path(#[trigger] text_views(v@)[k], p@);
            assert(text_views(v@)[k] == v@[k]@);
        }
    }
    false
}

/// What to do with a closed batch: apply these paths, then, where any were applied,
/// announce them and save the index; then listen again.
pub struct FlushPlan {
    pub apply: Vec<String>,
    pub announce: bool,
    pub next: DrainAction,
}

impl DrainState {
    #[verifier::type_invariant]
    spec fn well_formed(self) -> bool {
        distinct_paths(text_views(self.pending@))
    }

    /// A drain between batches, with nothing gathered.
    pub fn new() -> (r: DrainState)
        ensures
            r@.pending == Seq::<Seq<char>>::empty(),
            !r@.collecting,
    {
        let r = DrainState { pending: Vec::new(), collecting: false, deadline_ms: 0 };
        proof {
            assert(text_views(r.pending@) =~= Seq::<Seq<char>>::empty());
        }
        r
    }

    /// Takes in what the caller saw at `now_ms` and says what to do next. An event
    /// opens a batch if none is open, closing `MAX_WINDOW_MS` later; its paths join the
    /// batch, each unless the batch already has the same path, and none where the event
    /// only reports an access. The end of a wait flushes the batch, and the watcher's
    /// end stops the drain.
    pub fn step(&mut self, now_ms: u64, ev: DrainEvent) -> (a: DrainAction)
        requires
            now_ms <= u64::MAX - MAX_WINDOW_MS,
        ensures
            distinct_paths(final(self)@.pending),
            match ev {
                DrainEvent::Disconnected => a == DrainAction::Stop && final(self)@ == old(self)@,
                DrainEvent::TimedOut => a == DrainAction::Flush && final(self)@ == old(self)@,
                DrainEvent::Received { paths, is_access } => {
                    &&& final(self)@.collecting
                    &&& final(self)@.deadline_ms == if old(self)@.collecting {
                        old(self)@.deadline_ms
                    } else {
                        (now_ms + MAX_WINDOW_MS) as u64
                    }
                    &&& final(self)@.pending == if is_access {
                        old(self)@.pending
                    } else {
                        absorb(old(self)@.pending, text_views(paths@))
                    }
                    &&& a == next_action(now_ms, final(self)@.deadline_ms)
                    &&& final(self)@.pending.take(old(self)@.pending.len() as int)
                        == old(self)@.pending
                    &&& !is_access ==> forall|k: int|
                        0 <= k < paths@.len() ==> holds_path(
                            final(self)@.pending,
                            #[trigger] text_views(paths@)[k],
                        )
                },
            },
    {
        proof {
            use_type_invariant(&*self);
        }
        match ev {
            DrainEvent::Disconnected => DrainAction::Stop,
            DrainEvent::TimedOut => DrainAction::Flush,
            DrainEvent::Received { paths, is_access } => {
                if !self.collecting {
                    self.collecting = true;
                    self.deadline_ms = now_ms + MAX_WINDOW_MS;
                }
                if !is_access {
                    let mut pending: Vec<String> = Vec::new();
                    std::mem::swap(&mut pending, &mut self.pending);
                    let ghost start = text_views(pending@);
                    let mut i: usize = 0;
                    proof {
                        assert(text_views(paths@).take(0) =~= Seq::<Seq<char>>::empty());
                    }
                    while i < paths.len()
                        invariant
                            i <= paths@.len(),
                            distinct_paths(text_views(pending@)),
                            text_views(pending@) == absorb(start, text_views(paths@).take(i as int)),
                        decreases paths.len() - i,
                    {
                        let p = &paths[i];
                        let ghost before = text_views(pending@);
                        proof {
                            assert(text_views(paths@).take(i + 1).drop_last() =~= text_views(
                                paths@,
                            ).take(i as int));
                            assert(text_views(paths@).take(i + 1).last() == p@);
                        }
                        if !lists_same_path(&pending, p.as_str()) {
                            pending.push(p.clone());
                            proof {
                                assert(text_views(pending@) =~= before.push(p@));
                                assert forall|j: int, k: int|
                                    0 <= j < k < text_views(pending@).len() implies !same_path(
                                    #[trigger] text_views(pending@)[j],
                                    #[trigger] text_views(pending@)[k],
                                ) by {
                                    if k == before.len() {
                                        assert(text_views(pending@)[j] == before[j]);
                                        assert(!same_path(before[j], p@));
                                    } else {
                                        assert(text_views(pending@)[j] == before[j]);
                                        assert(text_views(pending@)[k] == before[k]);
                                    }
                                }
                            }
                        }
                        i = i + 1;
                    }
                    proof {
                        assert(text_views(paths@).take(i as int) =~= text_views(paths@));
                        law_absorb_keeps_every_path(start, text_views(paths@));
                    }
                    self.pending = pending;
                } else {
                    proof {
                        assert(text_views(self.pending@).take(text_views(self.pending@).len() as int)
                            =~= text_views(self.pending@));
                    }
                }
                if now_ms >= self.deadline_ms {
                    DrainAction::Flush
                } else if self.deadline_ms - now_ms < DEBOUNCE_MS {
                    DrainAction::Wait { timeout_ms: self.deadline_ms - now_ms }
                } else {
                    DrainAction::Wait { timeout_ms: DEBOUNCE_MS }
                }
            },
        }
    }

    /// Closes the batch and says how to finish it: apply the gathered paths that name
    /// files the index parses, in the order they first came; announce and save where
    /// there are any; then listen again.
    pub fn flush(&mut self) -> (r: FlushPlan)
        ensures
            text_views(r.apply@) == indexable_paths(old(self)@.pending),
            r.announce == (r.apply@.len() > 0),
            r.next == DrainAction::Listen,
            final(self)@.pending == Seq::<Seq<char>>::empty(),
            !final(self)@.collecting,
    {
        proof {
            use_type_invariant(&*self);
        }
        let mut batch: Vec<String> = Vec::new();
        std::mem::swap(&mut batch, &mut self.pending);
        self.collecting = false;
        proof {
            assert(text_views(self.pending@) =~= Seq::<Seq<char>>::empty());
        }
        let apply = batch_changes(batch);
        let announce = apply.len() > 0;
        FlushPlan { apply, announce, next: DrainAction::Listen }
    }
}

/// The paths of `s` that name files the index parses, in order.
pub open spec fn indexable_paths(s: Seq<Seq<char>>) -> Seq<Seq<char>>
    decreases s.len(),
{
    if s.len() == 0 {
        s
    } else {
        let earlier = indexable_paths(s.drop_last());
        if indexable(s.last()) {
            earlier.push(s.last())
        } else {
            earlier
        }
    }
}

/// Whether `s` holds `p` itself or a path that is the same path as `p`.
pub open spec fn holds_path(s: Seq<Seq<char>>, p: Seq<char>) -> bool {
    exists|i: int| 0 <= i < s.len() && (s[i] == p || same_path(#[trigger] s[i], p))
}

/// Taking paths into a batch loses none of them and adds nothing else: what the batch
/// had stays, in place and in order; each path taken in is afterwards in the batch,
/// itself or as a path that is the same path; and every path the batch gains is one of
/// those taken in.
pub proof fn law_absorb_keeps_every_path(s: Seq<Seq<char>>, ps: Seq<Seq<char>>)
    ensures
        s.len() <= absorb(s, ps).len(),
        absorb(s, ps).take(s.len() as int) == s,
        forall|i: int| s.len() <= i < absorb(s, ps).len() ==> ps.contains(#[trigger] absorb(s, ps)[i]),
        forall|k: int| 0 <= k < ps.len() ==> holds_path(absorb(s, ps), #[trigger] ps[k]),
    decreases ps.len(),
{
    let r = absorb(s, ps);
    if ps.len() == 0 {
        assert(r.take(s.len() as int) =~= s);
    } else {
        let d = ps.drop_last();
        let t = absorb(s, d);
        law_absorb_keeps_every_path(s, d);
        assert forall|i: int| s.len() <= i < t.len() implies ps.contains(#[trigger] t[i]) by {
            let m = choose|m: int| 0 <= m < d.len() && d[m] == t[i];
            assert(ps[m] == d[m]);
        }
        if lists_path(t, ps.last()) {
            assert(r == t);
            assert forall|k: int| 0 <= k < ps.len() implies holds_path(r, #[trigger] ps[k]) by {
                if k < d.len() {
                    assert(d[k] == ps[k]);
                    assert(holds_path(t, d[k]));
                } else {
                    let i = choose|i: int| 0 <= i < t.len() && same_path(#[trigger] t[i], ps.last());
                    assert(r[i] == t[i]);
                }
            }
        } else {
            assert(r == t.push(ps.last()));
            assert(r.take(s.len() as int) =~= t.take(s.len() as int));
            assert forall|i: int| s.len() <= i < r.len() implies ps.contains(#[trigger] r[i]) by {
                if i < t.len() {
                    assert(r[i] == t[i]);
                } else {
                    assert(r[i] == ps[ps.len() - 1]);
                }
            }
            assert forall|k: int| 0 <= k < ps.len() implies holds_path(r, #[trigger] ps[k]) by {
                if k < d.len() {
                    assert(d[k] == ps[k]);
                    assert(holds_path(t, d[k]));
                    let i = choose|i: int|
                        0 <= i < t.len() && (t[i] == d[k] || same_path(#[trigger] t[i], d[k]));
                    assert(r[i] == t[i]);
                } else {
                    assert(r[t.len() as int] == ps[k]);
                }
            }
        }
    }
}

/// A flush applies exactly the gathered paths that name files the index parses: each
/// such path is applied, and nothing else is.
pub proof fn law_flush_applies_every_indexable_path(s: Seq<Seq<char>>)
    ensures
        forall|x: Seq<char>| s.contains(x) && indexable(x) ==> #[trigger] indexable_paths(s).contains(x),
        forall|x: Seq<char>| #[trigger] indexable_paths(s).contains(x) ==> s.contains(x) && indexable(x),
    decreases s.len(),
{
    if s.len() > 0 {
        let d = s.drop_last();
        law_flush_applies_every_indexable_path(d);
        let e = indexable_paths(d);
        assert forall|x: Seq<char>| s.contains(x) && indexable(x) implies #[trigger] indexable_paths(
            s,
        ).contains(x) by {
            let i = choose|i: int| 0 <= i < s.len() && s[i] == x;
            if i < d.len() {
                assert(d[i] == x);
                assert(d.contains(x));
                assert(e.contains(x));
                let m = choose|m: int| 0 <= m < e.len() && e[m] == x;
                if indexable(s.last()) {
                    assert(indexable_paths(s) == e.push(s.last()));
                    assert(e.push(s.last())[m] == x);
                } else {
                    assert(indexable_paths(s) == e);
                }
            } else {
                assert(s.last() == x);
                assert(indexable_paths(s) == e.push(s.last()));
                assert(e.push(s.last())[e.len() as int] == x);
            }
        }
        assert forall|x: Seq<char>| #[trigger] indexable_paths(s).contains(x) implies s.contains(x)
            && indexable(x) by {
            let m = choose|m: int| 0 <= m < indexable_paths(s).len() && indexable_paths(s)[m] == x;
            if m < e.len() {
                if indexable(s.last()) {
                    assert(e.push(s.last())[m] == e[m]);
                }
                assert(e.contains(x));
                let i = choose|i: int| 0 <= i < d.len() && d[i] == x;
                assert(s[i] == d[i]);
            } else {
                assert(s[s.len() - 1] == x);
            }
        }
    }
}

/// The paths of a batch that the index applies: those of files it parses.
pub fn batch_changes(paths: Vec<String>) -> (r: Vec<String>)
    ensures
        text_views(r@) == indexable_paths(text_views(paths@)),
{
    let mut out: Vec<String> = Vec::new();
    let mut i: usize = 0;
    proof {
        assert(text_views(paths@).take(0) =~= Seq::<Seq<char>>::empty());
        assert(text_views(out@) =~= Seq::<Seq<char>>::empty());
    }
    while i < paths.len()
        invariant
            i <= paths@.len(),
            text_views(out@) == indexable_paths(text_views(paths@).take(i as int)),
        decreases paths.len() - i,
    {
        let p = &paths[i];
        proof {
            assert(text_views(paths@).take(i + 1).drop_last() =~= text_views(paths@).take(i as int));
            assert(text_views(paths@).take(i + 1).last() == p@);
        }
        if is_indexable(p.as_str()) {
            let ghost before = out@;
            out.push(p.clone());
            proof {
                assert(text_views(out@) =~= text_views(before).push(p@));
            }
        }
        i = i + 1;
    }
    proof {
        assert(text_views(paths@).take(i as int) =~= text_views(paths@));
    }
    out
}

} // verus!
