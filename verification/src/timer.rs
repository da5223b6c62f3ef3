use vstd::prelude::*;

verus! {

/// A completed timing record: a named subtask, how long it ran in
/// microseconds, and how deeply it was nested under the root.
#[derive(Debug, Clone, Copy)]
pub struct Timing {
    pub name: &'static str,
    pub duration: i64,
    pub depth: u32,
}

/// The mathematical content of a `Timing`: the label as a sequence of
/// characters, and the duration and depth as unbounded integers.
#[verifier::ext_equal]
pub struct TimingModel {
    pub name: Seq<char>,
    pub duration: int,
    pub depth: int,
}

impl View for Timing {
    type V = TimingModel;

    open spec fn view(&self) -> TimingModel {
        TimingModel {
            name: self.name@,
            duration: self.duration as int,
            depth: self.depth as int,
        }
    }
}

/// The one failure the tree can report: the measured span came back negative
/// or did not fit in an `i64`, which a monotonic clock never produces.
#[derive(Debug, PartialEq, Eq)]
pub enum TimerError {
    ClockAnomaly,
}

/// One still-open scope as the tree tracks it in ghost state: the timer's
/// identity, its stamped depth, and the identities of its ancestors,
/// outermost first.
#[verifier::ext_equal]
pub struct OpenScope {
    pub id: int,
    pub depth: int,
    pub ancestors: Seq<int>,
}

/// Some open scope strictly below position `p` of the stack carries
/// identity `id`.
pub open spec fn open_below(st: Seq<OpenScope>, id: int, p: int) -> bool {
    exists|q: int| 0 <= q < p && (#[trigger] st[q]).id == id
}

/// A scope stack is consistent: identities are pairwise distinct and below
/// `bound`; every scope's depth is the number of its ancestors; and each of
/// those ancestors is itself open, strictly below the scope on the stack —
/// so an ancestor is never the innermost open scope while a descendant is
/// open.
pub open spec fn scopes_consistent(st: Seq<OpenScope>, bound: int) -> bool {
    &&& forall|p: int| 0 <= p < st.len() ==> (#[trigger] st[p]).id < bound
    &&& forall|p: int, q: int| 0 <= p < q < st.len() ==> st[p].id != st[q].id
    &&& forall|p: int| 0 <= p < st.len() ==> (#[trigger] st[p]).depth == st[p].ancestors.len()
    &&& forall|p: int, a: int|
        0 <= p < st.len() && 0 <= a < st[p].ancestors.len() ==> #[trigger] open_below(
            st,
            st[p].ancestors[a],
            p,
        )
}

/// Owns the append-only list of completed timing records of one root
/// operation, in completion order. A ghost stack of still-open scopes,
/// innermost last, ties every `OpenTimer` to this tree and forces closes to
/// happen innermost-first.
pub struct TimerTree {
    timings: Vec<Timing>,
    open_scopes: Ghost<Seq<OpenScope>>,
    fresh_id: Ghost<int>,
}

impl View for TimerTree {
    type V = Seq<TimingModel>;

    closed spec fn view(&self) -> Seq<TimingModel> {
        self.timings@.map_values(|t: Timing| t@)
    }
}

/// One in-flight, not-yet-recorded timing. Closing it appends exactly one
/// record to its tree; consuming `self` makes a second record from the same
/// handle unrepresentable, and the tree's scope stack admits the close only
/// while this timer is the innermost open one.
pub struct OpenTimer {
    name: &'static str,
    start: time::PreciseTime,
    depth: u32,
    id: Ghost<int>,
    ancestors: Ghost<Seq<int>>,
}

/// The mathematical content of an `OpenTimer`: its label, nesting level,
/// identity and ancestor identities. The captured clock reading is opaque and
/// carries no model.
#[verifier::ext_equal]
pub struct OpenTimerModel {
    pub name: Seq<char>,
    pub depth: int,
    pub id: int,
    pub ancestors: Seq<int>,
}

impl View for OpenTimer {
    type V = OpenTimerModel;

    closed spec fn view(&self) -> OpenTimerModel {
        OpenTimerModel {
            name: self.name@,
            depth: self.depth as int,
            id: self.id@,
            ancestors: self.ancestors@,
        }
    }
}

impl OpenTimer {
    /// The scope this handle occupies on its tree's stack.
    pub open spec fn scope(&self) -> OpenScope {
        OpenScope { id: self@.id, depth: self@.depth, ancestors: self@.ancestors }
    }
}

impl TimerTree {
    /// Every stored record has a non-negative duration.
    pub open spec fn wf(&self) -> bool {
        forall|i: int| 0 <= i < self@.len() ==> self@[i].duration >= 0
    }

    /// The still-open scopes of this tree, innermost last.
    pub closed spec fn opens(&self) -> Seq<OpenScope> {
        self.open_scopes@
    }

    /// Every identity this tree has handed out is below this bound.
    pub closed spec fn id_bound(&self) -> int {
        self.fresh_id@
    }

    /// The timer behind `scope` is open in this tree.
    pub open spec fn has_open(&self, scope: OpenScope) -> bool {
        exists|p: int| 0 <= p < self.opens().len() && (#[trigger] self.opens()[p]) == scope
    }

    /// This tree's scope stack is consistent.
    pub open spec fn scopes_wf(&self) -> bool {
        scopes_consistent(self.opens(), self.id_bound())
    }

    /// The duration of the last record appended. By the completion-order
    /// discipline the outermost scope closes last, so this is the whole
    /// operation's time; calling it before any record exists is a caller bug
    /// and is ruled out here.
    pub fn total_time(&self) -> (r: i64)
        requires
            self@.len() > 0,
        ensures
            r as int == self@.last().duration,
    {
        self.timings[self.timings.len() - 1].duration
    }

    /// Starts timing a new named subtask directly under the root, at depth 0,
    /// capturing the current monotonic time. No record is appended until the
    /// returned handle closes; the new scope is pushed as the innermost open
    /// one.
    pub fn open(&mut self, name: &'static str) -> (t: OpenTimer)
        ensures
            final(self)@ == old(self)@,
            final(self).opens() == old(self).opens().push(
                OpenScope { id: old(self).id_bound(), depth: 0, ancestors: Seq::empty() },
            ),
            final(self).id_bound() == old(self).id_bound() + 1,
            t@ == (OpenTimerModel {
                name: name@,
                depth: 0,
                id: old(self).id_bound(),
                ancestors: Seq::empty(),
            }),
            old(self).scopes_wf() ==> final(self).scopes_wf(),
            old(self).wf() ==> final(self).wf(),
    {
        let ghost id = self.fresh_id@;
        let ghost scope = OpenScope { id, depth: 0, ancestors: Seq::empty() };
        proof {
            if old(self).scopes_wf() {
                lemma_scopes_consistent_push(self.opens(), self.id_bound(), scope);
            }
        }
        self.open_scopes = Ghost(self.open_scopes@.push(scope));
        self.fresh_id = Ghost(self.fresh_id@ + 1);
        proof {
            assert(self@ == old(self)@);
            if old(self).wf() {
                assert forall|i: int| 0 <= i < self@.len() implies self@[i].duration >= 0 by {
                    assert(old(self)@[i].duration >= 0);
                }
            }
        }
        OpenTimer {
            name,
            start: time::PreciseTime::now(),
            depth: 0,
            id: Ghost(id),
            ancestors: Ghost(Seq::empty()),
        }
    }

    /// The full ordered record list, for reporting and serialization.
    pub fn timings(&self) -> (r: &Vec<Timing>)
        ensures
            r@.len() == self@.len(),
            forall|i: int| 0 <= i < self@.len() ==> r@[i]@ == self@[i],
    {
        &self.timings
    }

    /// How many records have been appended so far.
    pub fn len(&self) -> (n: usize)
        ensures
            n == self@.len(),
    {
        self.timings.len()
    }

    /// Takes the measured span of a closing timer and settles it: a
    /// non-negative measurement is appended as a record and handed back, a
    /// negative or missing one is a clock anomaly, reported as an error and
    /// never stored. Exactly one record is appended on success, none on
    /// failure; the open scopes are untouched.
    pub fn record(
        &mut self,
        name: &'static str,
        depth: u32,
        measured: Option<i64>,
    ) -> (r: Result<i64, TimerError>)
        ensures
            r is Ok <==> (measured matches Some(d) && d >= 0),
            (match measured {
                Some(d) => if d >= 0 {
                    r == Ok::<i64, TimerError>(d) && final(self)@ == old(self)@.push(
                        TimingModel { name: name@, duration: d as int, depth: depth as int },
                    )
                } else {
                    r == Err::<i64, TimerError>(TimerError::ClockAnomaly) && final(self)@ == old(
                        self,
                    )@
                },
                None => r == Err::<i64, TimerError>(TimerError::ClockAnomaly) && final(self)@
                    == old(self)@,
            }),
            final(self).opens() == old(self).opens(),
            final(self).id_bound() == old(self).id_bound(),
            old(self).wf() ==> final(self).wf(),
    {
        match measured {
            Some(d) => {
                if d >= 0 {
                    self.timings.push(Timing { name, duration: d, depth });
                    proof {
                        assert(self@ =~= old(self)@.push(
                            TimingModel { name: name@, duration: d as int, depth: depth as int },
                        ));
                    }
                    Ok(d)
                } else {
                    Err(TimerError::ClockAnomaly)
                }
            },
            None => Err(TimerError::ClockAnomaly),
        }
    }
}

/// Pushing a scope whose ancestors are already open, under a fresh identity,
/// keeps the scope stack consistent.
proof fn lemma_scopes_consistent_push(olds: Seq<OpenScope>, bound: int, scope: OpenScope)
    requires
        scopes_consistent(olds, bound),
        scope.id == bound,
        scope.depth == scope.ancestors.len(),
        forall|a: int|
            0 <= a < scope.ancestors.len() ==> #[trigger] open_below(
                olds,
                scope.ancestors[a],
                olds.len() as int,
            ),
    ensures
        scopes_consistent(olds.push(scope), bound + 1),
{
    let news = olds.push(scope);
    assert(forall|p: int| 0 <= p < olds.len() ==> news[p] == olds[p]);
    assert(news[olds.len() as int] == scope);
    assert forall|p: int, a: int|
        0 <= p < news.len() && 0 <= a < news[p].ancestors.len() implies #[trigger] open_below(
        news,
        news[p].ancestors[a],
        p,
    ) by {
        if p < olds.len() {
            assert(open_below(olds, olds[p].ancestors[a], p));
            let q = choose|q: int| 0 <= q < p && (#[trigger] olds[q]).id == olds[p].ancestors[a];
            assert(0 <= q < p && news[q].id == news[p].ancestors[a]);
        } else {
            assert(open_below(olds, scope.ancestors[a], olds.len() as int));
            let q = choose|q: int|
                0 <= q < olds.len() && (#[trigger] olds[q]).id == scope.ancestors[a];
            assert(0 <= q < p && news[q].id == news[p].ancestors[a]);
        }
    }
}

/// Popping the innermost scope keeps the scope stack consistent.
proof fn lemma_scopes_consistent_pop(olds: Seq<OpenScope>, bound: int)
    requires
        scopes_consistent(olds, bound),
        olds.len() > 0,
    ensures
        scopes_consistent(olds.drop_last(), bound),
{
    let news = olds.drop_last();
    assert(forall|p: int| 0 <= p < news.len() ==> news[p] == olds[p]);
    assert forall|p: int, a: int|
        0 <= p < news.len() && 0 <= a < news[p].ancestors.len() implies #[trigger] open_below(
        news,
        news[p].ancestors[a],
        p,
    ) by {
        assert(open_below(olds, olds[p].ancestors[a], p));
        let q = choose|q: int| 0 <= q < p && (#[trigger] olds[q]).id == olds[p].ancestors[a];
        assert(0 <= q < p && news[q].id == news[p].ancestors[a]);
    }
}

impl TimerTree {
    /// Every stored record's numbers fit the fields that carried them: the
    /// duration lies within `i64`, the depth within `u32`.
    pub proof fn lemma_view_bounded(&self)
        ensures
            forall|i: int|
                0 <= i < self@.len() ==> (i64::MIN <= (#[trigger] self@[i]).duration <= i64::MAX
                    && 0 <= self@[i].depth <= u32::MAX),
    {
        assert forall|i: int|
            0 <= i < self@.len() implies (i64::MIN <= (#[trigger] self@[i]).duration <= i64::MAX
            && 0 <= self@[i].depth <= u32::MAX) by {
            assert(self@[i] == self.timings@[i]@);
        }
    }
}

/// Depth law at the API: in a consistent tree, every open timer's stamped
/// depth equals the number of its ancestors, and each ancestor is itself
/// still open, strictly below the timer on the scope stack.
pub proof fn lemma_depth_counts_open_ancestors(tree: &TimerTree, p: int)
    requires
        tree.scopes_wf(),
        0 <= p < tree.opens().len(),
    ensures
        tree.opens()[p].depth == tree.opens()[p].ancestors.len(),
        forall|a: int|
            0 <= a < tree.opens()[p].ancestors.len() ==> #[trigger] open_below(
                tree.opens(),
                tree.opens()[p].ancestors[a],
                p,
            ),
{
}

/// Completion-order law at the API: while any descendant is open, an ancestor
/// never sits innermost on the scope stack, so `close` — which demands the
/// innermost scope — cannot run for the ancestor: the descendant's record is
/// always appended first.
pub proof fn lemma_ancestor_never_innermost(tree: &TimerTree, p: int, a: int)
    requires
        tree.scopes_wf(),
        0 <= p < tree.opens().len(),
        0 <= a < tree.opens()[p].ancestors.len(),
    ensures
        forall|q: int|
            0 <= q < tree.opens().len() && (#[trigger] tree.opens()[q]).id
                == tree.opens()[p].ancestors[a] ==> q < tree.opens().len() - 1,
{
    let st = tree.opens();
    let aid = st[p].ancestors[a];
    assert(open_below(st, aid, p));
    let q0 = choose|q: int| 0 <= q < p && (#[trigger] st[q]).id == aid;
    assert forall|q: int|
        0 <= q < st.len() && (#[trigger] st[q]).id == aid implies q < st.len() - 1 by {
        if q != q0 {
            if q0 < q {
                assert(st[q0].id != st[q].id);
            } else {
                assert(st[q].id != st[q0].id);
            }
        }
    }
}

impl Default for TimerTree {
    /// An empty tree with zero records and nothing open.
    fn default() -> (t: TimerTree)
        ensures
            t@ == Seq::<TimingModel>::empty(),
            t.opens() == Seq::<OpenScope>::empty(),
            t.id_bound() == 0,
            t.wf(),
            t.scopes_wf(),
    {
        let t = TimerTree {
            timings: Vec::new(),
            open_scopes: Ghost(Seq::empty()),
            fresh_id: Ghost(0),
        };
        proof {
            assert(t@ =~= Seq::<TimingModel>::empty());
        }
        t
    }
}

impl OpenTimer {
    /// Starts timing a new named subtask nested one level below this one,
    /// capturing the current monotonic time. The parent handle must be open
    /// in `tree` — which ties the child to the same tree — and the child is
    /// pushed as the innermost open scope; no record is appended.
    pub fn open(&self, name: &'static str, tree: &mut TimerTree) -> (t: OpenTimer)
        requires
            old(tree).scopes_wf(),
            old(tree).has_open(self.scope()),
            self@.depth < u32::MAX,
        ensures
            final(tree)@ == old(tree)@,
            final(tree).opens() == old(tree).opens().push(
                OpenScope {
                    id: old(tree).id_bound(),
                    depth: self@.depth + 1,
                    ancestors: self@.ancestors.push(self@.id),
                },
            ),
            final(tree).id_bound() == old(tree).id_bound() + 1,
            t@ == (OpenTimerModel {
                name: name@,
                depth: self@.depth + 1,
                id: old(tree).id_bound(),
                ancestors: self@.ancestors.push(self@.id),
            }),
            final(tree).scopes_wf(),
            old(tree).wf() ==> final(tree).wf(),
    {
        let ghost id = tree.fresh_id@;
        let ghost anc = self.ancestors@.push(self.id@);
        let ghost scope = OpenScope { id, depth: self@.depth + 1, ancestors: anc };
        proof {
            let st = tree.opens();
            let ps = choose|p: int| 0 <= p < st.len() && (#[trigger] st[p]) == self.scope();
            assert(st[ps].depth == st[ps].ancestors.len());
            assert(scope.depth == scope.ancestors.len());
            assert forall|a: int| 0 <= a < scope.ancestors.len() implies #[trigger] open_below(
                st,
                scope.ancestors[a],
                st.len() as int,
            ) by {
                if a < self@.ancestors.len() {
                    assert(open_below(st, st[ps].ancestors[a], ps));
                    let q = choose|q: int|
                        0 <= q < ps && (#[trigger] st[q]).id == st[ps].ancestors[a];
                    assert(0 <= q < st.len() && st[q].id == scope.ancestors[a]);
                } else {
                    assert(st[ps].id == scope.ancestors[a]);
                }
            }
            lemma_scopes_consistent_push(st, tree.id_bound(), scope);
        }
        tree.open_scopes = Ghost(tree.open_scopes@.push(scope));
        tree.fresh_id = Ghost(tree.fresh_id@ + 1);
        OpenTimer {
            name,
            start: time::PreciseTime::now(),
            depth: self.depth + 1,
            id: Ghost(id),
            ancestors: Ghost(anc),
        }
    }

    /// Releases this timer, which must be the innermost open scope of its
    /// tree: reads the monotonic clock, computes the elapsed microseconds
    /// since the timer was opened, pops the scope, and appends exactly one
    /// record carrying this timer's name and depth. A negative or overflowing
    /// measurement is a clock anomaly: the error is returned, the scope is
    /// still popped, and the record list is left unchanged.
    pub fn close(self, tree: &mut TimerTree) -> (r: Result<i64, TimerError>)
        requires
            old(tree).opens().len() > 0,
            old(tree).opens().last() == self.scope(),
        ensures
            (r matches Ok(d) ==> d >= 0 && final(tree)@ == old(tree)@.push(
                TimingModel { name: self@.name, duration: d as int, depth: self@.depth },
            )),
            r is Err ==> final(tree)@ == old(tree)@ && r == Err::<i64, TimerError>(
                TimerError::ClockAnomaly,
            ),
            final(tree).opens() == old(tree).opens().drop_last(),
            final(tree).id_bound() == old(tree).id_bound(),
            old(tree).scopes_wf() ==> final(tree).scopes_wf(),
            old(tree).wf() ==> final(tree).wf(),
    {
        proof {
            if old(tree).scopes_wf() {
                lemma_scopes_consistent_pop(old(tree).opens(), old(tree).id_bound());
            }
        }
        tree.open_scopes = Ghost(tree.open_scopes@.drop_last());
        let measured = crate::clock::elapsed_micros(&self.start);
        tree.record(self.name, self.depth, measured)
    }
}

} // verus!
