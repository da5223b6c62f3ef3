//! A ghost model of the scoped-timer protocol as a whole run: a trace of
//! open and close events over a stack of open timers and a record list. The
//! executable API enforces the same discipline one step at a time through
//! the tree's ghost scope stack — `TimerTree::open` and `OpenTimer::open`
//! push a scope, `OpenTimer::close` demands and pops the innermost one and
//! appends exactly one record, as its `ensures` states. This module states
//! the laws that hold over whole runs of that discipline: how many records a
//! balanced run yields, how depths relate to stack positions, and that a
//! descendant's record always precedes its ancestor's.
use crate::timer::TimingModel;
use vstd::prelude::*;

verus! {

/// One still-open timer: its label, its nesting level, and a ghost identity
/// telling it apart from every other timer of the run.
pub struct OpenEntry {
    pub name: Seq<char>,
    pub depth: int,
    pub id: int,
}

/// One completed record: the timing it contributed and the ghost identity of
/// the timer that produced it.
pub struct RecordEntry {
    pub timing: TimingModel,
    pub id: int,
}

/// One step of the protocol: a subtask opens under the innermost open timer,
/// or the innermost open timer closes after measuring `duration`
/// microseconds.
pub enum TimerEvent {
    Open { name: Seq<char>, id: int },
    Close { duration: int },
}

/// The protocol state: the stack of still-open timers, innermost last, and
/// the records completed so far, in completion order.
pub struct ProtocolState {
    pub stack: Seq<OpenEntry>,
    pub records: Seq<RecordEntry>,
}

/// The state before any timer has been opened: nothing open, no records.
pub open spec fn init() -> ProtocolState {
    ProtocolState { stack: Seq::empty(), records: Seq::empty() }
}

/// How one event changes the state. Opening pushes a timer whose depth is the
/// number of timers already open — its ancestors. Closing pops the innermost
/// timer and appends exactly one record carrying its name, its stamped depth
/// and the measured duration; a close with nothing open changes nothing.
pub open spec fn step(s: ProtocolState, e: TimerEvent) -> ProtocolState {
    match e {
        TimerEvent::Open { name, id } => ProtocolState {
            stack: s.stack.push(OpenEntry { name, depth: s.stack.len() as int, id }),
            records: s.records,
        },
        TimerEvent::Close { duration } => {
            if s.stack.len() > 0 {
                ProtocolState {
                    stack: s.stack.drop_last(),
                    records: s.records.push(
                        RecordEntry {
                            timing: TimingModel {
                                name: s.stack.last().name,
                                duration: duration,
                                depth: s.stack.last().depth,
                            },
                            id: s.stack.last().id,
                        },
                    ),
                }
            } else {
                s
            }
        },
    }
}

/// The state after a whole sequence of events.
pub open spec fn run(s: ProtocolState, es: Seq<TimerEvent>) -> ProtocolState
    decreases es.len(),
{
    if es.len() == 0 {
        s
    } else {
        run(step(s, es.first()), es.drop_first())
    }
}

/// Every close in `es` finds a timer open: the trace never closes more than
/// it has opened.
pub open spec fn closes_ok(s: ProtocolState, es: Seq<TimerEvent>) -> bool
    decreases es.len(),
{
    es.len() == 0 || {
        &&& (es.first() is Close ==> s.stack.len() > 0)
        &&& closes_ok(step(s, es.first()), es.drop_first())
    }
}

/// How many timers the trace opens.
pub open spec fn count_opens(es: Seq<TimerEvent>) -> int
    decreases es.len(),
{
    if es.len() == 0 {
        0
    } else {
        (if es.first() is Open {
            1int
        } else {
            0int
        }) + count_opens(es.drop_first())
    }
}

proof fn lemma_run_conserves(s: ProtocolState, es: Seq<TimerEvent>)
    requires
        closes_ok(s, es),
    ensures
        run(s, es).records.len() + run(s, es).stack.len() == s.records.len() + s.stack.len()
            + count_opens(es),
    decreases es.len(),
{
    if es.len() > 0 {
        lemma_run_conserves(step(s, es.first()), es.drop_first());
    }
}

/// Cardinality law: a run that starts with nothing open, never closes more
/// than it opened, and ends with nothing open yields exactly one record per
/// opened timer, whatever the nesting arrangement.
pub proof fn lemma_cardinality(es: Seq<TimerEvent>)
    requires
        closes_ok(init(), es),
        run(init(), es).stack.len() == 0,
    ensures
        run(init(), es).records.len() == count_opens(es),
{
    lemma_run_conserves(init(), es);
}

/// Every open timer's stamped depth is its position on the stack — the number
/// of still-open ancestors below it.
pub open spec fn depths_are_heights(st: Seq<OpenEntry>) -> bool {
    forall|i: int| 0 <= i < st.len() ==> st[i].depth == i
}

/// Depth law, preservation: stamping each opened timer with the count of its
/// open ancestors keeps every stacked depth equal to its position, across any
/// run.
pub proof fn lemma_depths_are_heights(s: ProtocolState, es: Seq<TimerEvent>)
    requires
        depths_are_heights(s.stack),
    ensures
        depths_are_heights(run(s, es).stack),
    decreases es.len(),
{
    if es.len() > 0 {
        assert(depths_are_heights(step(s, es.first()).stack));
        lemma_depths_are_heights(step(s, es.first()), es.drop_first());
    }
}

/// `id` sits on the stack at position `at` and nowhere else.
pub open spec fn stack_id_only_at(st: Seq<OpenEntry>, id: int, at: int) -> bool {
    &&& 0 <= at < st.len()
    &&& st[at].id == id
    &&& forall|p: int| 0 <= p < st.len() && st[p].id == id ==> p == at
}

/// No timer with identity `id` sits on the stack.
pub open spec fn stack_lacks(st: Seq<OpenEntry>, id: int) -> bool {
    forall|p: int| 0 <= p < st.len() ==> st[p].id != id
}

/// No record was produced by the timer with identity `id`.
pub open spec fn records_lack(rs: Seq<RecordEntry>, id: int) -> bool {
    forall|k: int| 0 <= k < rs.len() ==> rs[k].id != id
}

/// The trace opens no timer with identity `id`.
pub open spec fn no_open_of(es: Seq<TimerEvent>, id: int) -> bool {
    forall|k: int|
        0 <= k < es.len() ==> !(#[trigger] es[k] matches TimerEvent::Open { id: oid, .. } && oid
            == id)
}

/// Every record of the timer `bid` stands before every record of the timer
/// `aid` in the completion-order list.
pub open spec fn recorded_before(rs: Seq<RecordEntry>, bid: int, aid: int) -> bool {
    forall|j: int, k: int|
        0 <= j < rs.len() && 0 <= k < rs.len() && rs[j].id == aid && rs[k].id == bid ==> k < j
}

/// Both timers are still open, the descendant `bid` above the ancestor `aid`,
/// and neither has produced a record.
pub open spec fn phase_both_open(s: ProtocolState, aid: int, bid: int, ia: int, ib: int) -> bool {
    &&& ia < ib
    &&& stack_id_only_at(s.stack, aid, ia)
    &&& stack_id_only_at(s.stack, bid, ib)
    &&& records_lack(s.records, aid)
    &&& records_lack(s.records, bid)
}

/// The descendant `bid` has closed, the ancestor `aid` is still open and
/// still unrecorded.
pub open spec fn phase_descendant_closed(s: ProtocolState, aid: int, bid: int, ia: int) -> bool {
    &&& stack_id_only_at(s.stack, aid, ia)
    &&& stack_lacks(s.stack, bid)
    &&& records_lack(s.records, aid)
}

/// Both timers have closed, and every record of the descendant stands before
/// every record of the ancestor.
pub open spec fn phase_both_closed(s: ProtocolState, aid: int, bid: int) -> bool {
    &&& stack_lacks(s.stack, aid)
    &&& stack_lacks(s.stack, bid)
    &&& recorded_before(s.records, bid, aid)
}

/// The states a run can pass through once the ancestor `aid` holds position
/// `ia` under the descendant `bid`: the descendant can only close first.
pub open spec fn order_inv(s: ProtocolState, aid: int, bid: int, ia: int) -> bool {
    ||| exists|ib: int| phase_both_open(s, aid, bid, ia, ib)
    ||| phase_descendant_closed(s, aid, bid, ia)
    ||| phase_both_closed(s, aid, bid)
}

proof fn lemma_order_inv_step(s: ProtocolState, e: TimerEvent, aid: int, bid: int, ia: int)
    requires
        aid != bid,
        e is Close ==> s.stack.len() > 0,
        !(e matches TimerEvent::Open { id: oid, .. } && (oid == aid || oid == bid)),
        order_inv(s, aid, bid, ia),
    ensures
        order_inv(step(s, e), aid, bid, ia),
{
    let s1 = step(s, e);
    match e {
        TimerEvent::Open { name, id } => {
            if exists|ib: int| phase_both_open(s, aid, bid, ia, ib) {
                let ib = choose|ib: int| phase_both_open(s, aid, bid, ia, ib);
                assert(phase_both_open(s1, aid, bid, ia, ib));
            } else if phase_descendant_closed(s, aid, bid, ia) {
                assert(phase_descendant_closed(s1, aid, bid, ia));
            } else {
                assert(phase_both_closed(s1, aid, bid));
            }
        },
        TimerEvent::Close { duration } => {
            let top = s.stack.len() - 1;
            if exists|ib: int| phase_both_open(s, aid, bid, ia, ib) {
                let ib = choose|ib: int| phase_both_open(s, aid, bid, ia, ib);
                if ib == top {
                    // the descendant itself closes: its record appears, the
                    // ancestor stays open below it
                    assert(stack_id_only_at(s1.stack, aid, ia));
                    assert(stack_lacks(s1.stack, bid));
                    assert(phase_descendant_closed(s1, aid, bid, ia));
                } else {
                    // some timer nested above the descendant closes
                    assert(s.stack[top].id != aid);
                    assert(s.stack[top].id != bid);
                    assert(phase_both_open(s1, aid, bid, ia, ib));
                }
            } else if phase_descendant_closed(s, aid, bid, ia) {
                if ia == top {
                    // the ancestor itself closes: its record lands after
                    // every record already present, the descendant's among
                    // them
                    assert(stack_lacks(s1.stack, aid));
                    assert(stack_lacks(s1.stack, bid));
                    assert(recorded_before(s1.records, bid, aid));
                    assert(phase_both_closed(s1, aid, bid));
                } else {
                    assert(s.stack[top].id != aid);
                    assert(stack_id_only_at(s1.stack, aid, ia));
                    assert(phase_descendant_closed(s1, aid, bid, ia));
                }
            } else {
                assert(s.stack[top].id != aid);
                assert(s.stack[top].id != bid);
                assert(phase_both_closed(s1, aid, bid));
            }
        },
    }
}

proof fn lemma_order_inv_run(s: ProtocolState, es: Seq<TimerEvent>, aid: int, bid: int, ia: int)
    requires
        aid != bid,
        closes_ok(s, es),
        no_open_of(es, aid),
        no_open_of(es, bid),
        order_inv(s, aid, bid, ia),
    ensures
        order_inv(run(s, es), aid, bid, ia),
    decreases es.len(),
{
    if es.len() > 0 {
        let e = es.first();
        assert(!(e matches TimerEvent::Open { id: oid, .. } && (oid == aid || oid == bid)));
        lemma_order_inv_step(s, e, aid, bid, ia);
        assert(no_open_of(es.drop_first(), aid)) by {
            assert(forall|k: int|
                0 <= k < es.drop_first().len() ==> es.drop_first()[k] == es[k + 1]);
        }
        assert(no_open_of(es.drop_first(), bid)) by {
            assert(forall|k: int|
                0 <= k < es.drop_first().len() ==> es.drop_first()[k] == es[k + 1]);
        }
        lemma_order_inv_run(step(s, e), es.drop_first(), aid, bid, ia);
    }
}

/// Completion-order law: take an ancestor timer A and a descendant timer B
/// opened while A was still open, so that B sits above A on the stack. Over
/// any continuation of the run that never closes more than is open and never
/// reuses either identity, every record B produces stands before every record
/// A produces: B must close before A can.
pub proof fn lemma_descendant_recorded_before_ancestor(
    s: ProtocolState,
    es: Seq<TimerEvent>,
    ia: int,
    ib: int,
)
    requires
        closes_ok(s, es),
        0 <= ia < ib < s.stack.len(),
        s.stack[ia].id != s.stack[ib].id,
        stack_id_only_at(s.stack, s.stack[ia].id, ia),
        stack_id_only_at(s.stack, s.stack[ib].id, ib),
        records_lack(s.records, s.stack[ia].id),
        records_lack(s.records, s.stack[ib].id),
        no_open_of(es, s.stack[ia].id),
        no_open_of(es, s.stack[ib].id),
    ensures
        recorded_before(run(s, es).records, s.stack[ib].id, s.stack[ia].id),
{
    let aid = s.stack[ia].id;
    let bid = s.stack[ib].id;
    assert(phase_both_open(s, aid, bid, ia, ib));
    lemma_order_inv_run(s, es, aid, bid, ia);
    let sf = run(s, es);
    if exists|jb: int| phase_both_open(sf, aid, bid, ia, jb) {
        assert(records_lack(sf.records, aid));
    }
}

/// Depth law, at the close: the record a closing timer appends carries a
/// depth equal to the number of timers left open — its ancestors, each of
/// which was already open when this timer was opened.
pub proof fn lemma_record_depth_counts_ancestors(s: ProtocolState, d: int)
    requires
        depths_are_heights(s.stack),
        s.stack.len() > 0,
    ensures
        step(s, TimerEvent::Close { duration: d }).records.last().timing.depth == step(
            s,
            TimerEvent::Close { duration: d },
        ).stack.len(),
{
}

} // verus!
