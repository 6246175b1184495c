use crate::module::Module;
use crate::patchbay::{BayView, Patchbay};
use vstd::prelude::*;

verus! {

/// Ghost state of an order-discovery tick in progress: the slot table, the
/// bind table, the patchbay state, and the bookkeeping of the discovery —
/// which external ids have been processed in the greedy passes, the position
/// each id was given in the new order, the next free position, and the ids in
/// processing order.
#[verifier::ext_equal]
#[verifier::reject_recursive_types(M)]
pub struct TickState<M> {
    /// The module stored in each slot.
    pub slots: Seq<Option<M>>,
    /// The slot each external id is bound to.
    pub binds: Seq<Option<int>>,
    /// The patchbay state.
    pub bay: BayView,
    /// Whether each external id was processed during the greedy passes.
    pub done: Seq<bool>,
    /// The position each external id was given in the new order.
    pub placed: Seq<Option<int>>,
    /// The next free position of the new order.
    pub next: int,
    /// The external ids in the order their modules were processed.
    pub log: Seq<int>,
}

/// Ghost state of the compaction that ends a discovery tick: the new slot
/// table being filled, the old slot table being drained, and the bind table
/// being rewritten.
#[verifier::ext_equal]
#[verifier::reject_recursive_types(M)]
pub struct CompState<M> {
    /// The new slot table, filled in discovery order.
    pub cache: Seq<Option<M>>,
    /// The old slot table, emptied as modules move over.
    pub slots: Seq<Option<M>>,
    /// The bind table, rewritten id by id.
    pub binds: Seq<Option<int>>,
}

/// Ghost state of a cached-order tick: the slot table and the patchbay.
#[verifier::ext_equal]
#[verifier::reject_recursive_types(M)]
pub struct HotState<M> {
    /// The module stored in each slot.
    pub slots: Seq<Option<M>>,
    /// The patchbay state.
    pub bay: BayView,
}

/// How many of the first `n` entries are true.
pub open spec fn count_done(done: Seq<bool>, n: int) -> int
    decreases n,
{
    if n <= 0 {
        0
    } else {
        count_done(done, n - 1) + if done[n - 1] {
            1int
        } else {
            0int
        }
    }
}

pub proof fn lemma_count_done_bounds(done: Seq<bool>, n: int)
    requires
        0 <= n,
    ensures
        0 <= count_done(done, n) <= n,
    decreases n,
{
    if n > 0 {
        lemma_count_done_bounds(done, n - 1);
    }
}

pub proof fn lemma_count_done_update(done: Seq<bool>, n: int, i: int)
    requires
        0 <= i < n <= done.len(),
        !done[i],
    ensures
        count_done(done.update(i, true), n) == count_done(done, n) + 1,
    decreases n,
{
    if i < n - 1 {
        lemma_count_done_update(done, n - 1, i);
    } else {
        assert(count_done(done.update(i, true), n - 1) == count_done(done, n - 1)) by {
            lemma_count_done_same(done, done.update(i, true), n - 1);
        }
    }
}

pub proof fn lemma_count_done_same(a: Seq<bool>, b: Seq<bool>, n: int)
    requires
        forall|j: int| 0 <= j < n ==> a[j] == b[j],
    ensures
        count_done(a, n) == count_done(b, n),
    decreases n,
{
    if n > 0 {
        lemma_count_done_same(a, b, n - 1);
    }
}

/// The bookkeeping tables of a tick state agree in length and every bound
/// slot index is in range.
pub open spec fn tick_wf<M>(st: TickState<M>) -> bool {
    &&& st.done.len() == st.binds.len()
    &&& st.placed.len() == st.binds.len()
    &&& forall|i: int|
        0 <= i < st.binds.len() && #[trigger] st.binds[i] is Some ==> 0 <= st.binds[i]->0
            < st.slots.len()
}

/// How many of the first `n` entries hold a value.
pub open spec fn count_opts(v: Seq<Option<usize>>, n: int) -> int
    decreases n,
{
    if n <= 0 {
        0
    } else {
        count_opts(v, n - 1) + if v[n - 1] is Some {
            1int
        } else {
            0int
        }
    }
}

pub proof fn lemma_count_opts_bounds(v: Seq<Option<usize>>, n: int)
    requires
        0 <= n,
    ensures
        0 <= count_opts(v, n) <= n,
    decreases n,
{
    if n > 0 {
        lemma_count_opts_bounds(v, n - 1);
    }
}

pub proof fn lemma_count_opts_same(a: Seq<Option<usize>>, b: Seq<Option<usize>>, n: int)
    requires
        forall|j: int| 0 <= j < n ==> a[j] == b[j],
    ensures
        count_opts(a, n) == count_opts(b, n),
    decreases n,
{
    if n > 0 {
        lemma_count_opts_same(a, b, n - 1);
    }
}

pub proof fn lemma_count_opts_none(v: Seq<Option<usize>>, n: int)
    requires
        forall|j: int| 0 <= j < n ==> v[j] is None,
    ensures
        count_opts(v, n) == 0,
    decreases n,
{
    if n > 0 {
        lemma_count_opts_none(v, n - 1);
    }
}

pub proof fn lemma_count_opts_update(v: Seq<Option<usize>>, n: int, i: int, x: usize)
    requires
        0 <= i < n <= v.len(),
        v[i] is None,
    ensures
        count_opts(v.update(i, Some(x)), n) == count_opts(v, n) + 1,
    decreases n,
{
    if i < n - 1 {
        lemma_count_opts_update(v, n - 1, i, x);
    } else {
        lemma_count_opts_same(v, v.update(i, Some(x)), n - 1);
    }
}

/// One greedy step of order discovery at external id `id`: if the id is
/// bound, not yet processed, and its module reports ready on the current
/// patchbay state, the module is processed and appended to the new order.
pub open spec fn greedy_step<const SAMPLE_RATE: usize, M: Module<SAMPLE_RATE>>(
    st: TickState<M>,
    id: int,
) -> TickState<M> {
    if !st.done[id] && st.binds[id] is Some && st.slots[st.binds[id]->0] is Some {
        let slot = st.binds[id]->0;
        let m = st.slots[slot]->0;
        if m.ready_model(st.bay) {
            TickState {
                slots: st.slots.update(slot, Some(m.state_model(st.bay))),
                bay: m.bay_model(st.bay),
                done: st.done.update(id, true),
                placed: st.placed.update(id, Some(st.next)),
                next: st.next + 1,
                log: st.log.push(id),
                ..st
            }
        } else {
            st
        }
    } else {
        st
    }
}

/// One full greedy pass: the greedy step applied at ids `0, 1, …, n-1` in
/// increasing order — the specified tie-break.
pub open spec fn greedy_pass<const SAMPLE_RATE: usize, M: Module<SAMPLE_RATE>>(
    st: TickState<M>,
    n: int,
) -> TickState<M>
    decreases n,
{
    if n <= 0 {
        st
    } else {
        greedy_step::<SAMPLE_RATE, M>(greedy_pass::<SAMPLE_RATE, M>(st, n - 1), n - 1)
    }
}

pub proof fn lemma_greedy_pass_shape<const SAMPLE_RATE: usize, M: Module<SAMPLE_RATE>>(
    st: TickState<M>,
    n: int,
)
    requires
        tick_wf(st),
        0 <= n <= st.binds.len(),
    ensures
        tick_wf(greedy_pass::<SAMPLE_RATE, M>(st, n)),
        greedy_pass::<SAMPLE_RATE, M>(st, n).binds == st.binds,
        greedy_pass::<SAMPLE_RATE, M>(st, n).done.len() == st.done.len(),
        greedy_pass::<SAMPLE_RATE, M>(st, n).slots.len() == st.slots.len(),
        greedy_pass::<SAMPLE_RATE, M>(st, n).placed.len() == st.placed.len(),
        forall|i: int|
            0 <= i < st.done.len() && st.done[i] ==> #[trigger] greedy_pass::<SAMPLE_RATE, M>(st, n).done[i],
        forall|i: int|
            0 <= i < st.done.len() && !st.done[i] && #[trigger] greedy_pass::<SAMPLE_RATE, M>(st, n).done[i] ==> 0
                <= i < n,
    decreases n,
{
    if n > 0 {
        lemma_greedy_pass_shape(st, n - 1);
    }
}

/// The greedy phase of order discovery: full passes repeat until one of them
/// processes nothing.
pub open spec fn greedy_rounds<const SAMPLE_RATE: usize, M: Module<SAMPLE_RATE>>(
    st: TickState<M>,
) -> TickState<M>
    decreases st.done.len() - count_done(st.done, st.done.len() as int),
{
    let st2 = greedy_pass::<SAMPLE_RATE, M>(st, st.binds.len() as int);
    if st2.done.len() == st.done.len() && count_done(st2.done, st2.done.len() as int) > count_done(
        st.done,
        st.done.len() as int,
    ) {
        proof {
            lemma_count_done_bounds(st.done, st.done.len() as int);
            lemma_count_done_bounds(st2.done, st2.done.len() as int);
        }
        greedy_rounds::<SAMPLE_RATE, M>(st2)
    } else {
        st2
    }
}

/// One residual step at external id `id`: a bound module left over by the
/// greedy passes is processed unconditionally — it reads stale values where
/// its inputs sit on a feedback cycle — and appended to the new order.
pub open spec fn residual_step<const SAMPLE_RATE: usize, M: Module<SAMPLE_RATE>>(
    st: TickState<M>,
    id: int,
) -> TickState<M> {
    if !st.done[id] && st.binds[id] is Some && st.slots[st.binds[id]->0] is Some {
        let slot = st.binds[id]->0;
        let m = st.slots[slot]->0;
        TickState {
            slots: st.slots.update(slot, Some(m.state_model(st.bay))),
            bay: m.bay_model(st.bay),
            placed: st.placed.update(id, Some(st.next)),
            next: st.next + 1,
            log: st.log.push(id),
            ..st
        }
    } else {
        st
    }
}

/// The residual pass: the residual step applied at ids `0, 1, …, n-1` in
/// increasing order.
pub open spec fn residual_pass<const SAMPLE_RATE: usize, M: Module<SAMPLE_RATE>>(
    st: TickState<M>,
    n: int,
) -> TickState<M>
    decreases n,
{
    if n <= 0 {
        st
    } else {
        residual_step::<SAMPLE_RATE, M>(residual_pass::<SAMPLE_RATE, M>(st, n - 1), n - 1)
    }
}

/// One compaction step at external id `id`: the id's module moves from its
/// old slot to the position the discovery gave it, and the id is rebound.
pub open spec fn comp_step<M>(cs: CompState<M>, placed: Seq<Option<int>>, id: int) -> CompState<
    M,
> {
    if cs.binds[id] is Some {
        let old_slot = cs.binds[id]->0;
        let new_slot = if placed[id] is Some {
            placed[id]->0
        } else {
            old_slot
        };
        CompState {
            cache: cs.cache.update(new_slot, cs.slots[old_slot]),
            slots: cs.slots.update(old_slot, None),
            binds: cs.binds.update(id, Some(new_slot)),
        }
    } else {
        cs
    }
}

/// The compaction pass: the compaction step applied at ids `0, 1, …, n-1`.
pub open spec fn comp_pass<M>(cs: CompState<M>, placed: Seq<Option<int>>, n: int) -> CompState<M>
    decreases n,
{
    if n <= 0 {
        cs
    } else {
        comp_step(comp_pass(cs, placed, n - 1), placed, n - 1)
    }
}

/// The state a discovery tick starts from: freshness marks cleared, no id
/// processed or placed, the new order empty.
pub open spec fn tick_start<const SAMPLE_RATE: usize, M: Module<SAMPLE_RATE>>(
    slots: Seq<Option<M>>,
    binds: Seq<Option<int>>,
    bay: BayView,
) -> TickState<M> {
    TickState {
        slots,
        binds,
        bay: bay.cleared(),
        done: Seq::new(binds.len(), |i: int| false),
        placed: Seq::new(binds.len(), |i: int| None::<int>),
        next: 0,
        log: Seq::empty(),
    }
}

/// A whole discovery tick before compaction: the greedy phase run to its
/// fixpoint, then the residual pass over every id.
pub open spec fn discovery<const SAMPLE_RATE: usize, M: Module<SAMPLE_RATE>>(
    slots: Seq<Option<M>>,
    binds: Seq<Option<int>>,
    bay: BayView,
) -> TickState<M> {
    let st = greedy_rounds::<SAMPLE_RATE, M>(tick_start::<SAMPLE_RATE, M>(slots, binds, bay));
    residual_pass::<SAMPLE_RATE, M>(st, st.binds.len() as int)
}

/// The slot and bind tables a discovery tick leaves behind: every module
/// moved to its position in the discovered order.
pub open spec fn discovery_comp<const SAMPLE_RATE: usize, M: Module<SAMPLE_RATE>>(
    slots: Seq<Option<M>>,
    binds: Seq<Option<int>>,
    bay: BayView,
) -> CompState<M> {
    let st = discovery::<SAMPLE_RATE, M>(slots, binds, bay);
    comp_pass(
        CompState {
            cache: Seq::new(st.slots.len(), |i: int| None::<M>),
            slots: st.slots,
            binds: st.binds,
        },
        st.placed,
        st.binds.len() as int,
    )
}

/// A straight-line replay of a processing order: starting from the slot
/// table `slots0` and the patchbay state `bay0`, the modules bound to the
/// logged external ids are processed one after the other, exactly as a
/// cached-order tick runs the rearranged slots.
pub open spec fn replay<const SAMPLE_RATE: usize, M: Module<SAMPLE_RATE>>(
    slots0: Seq<Option<M>>,
    binds: Seq<Option<int>>,
    log: Seq<int>,
    bay0: BayView,
) -> HotState<M>
    decreases log.len(),
{
    if log.len() == 0 {
        HotState { slots: slots0, bay: bay0 }
    } else {
        let h = replay::<SAMPLE_RATE, M>(slots0, binds, log.drop_last(), bay0);
        let id = log.last();
        if 0 <= id < binds.len() && binds[id] is Some && 0 <= binds[id]->0 < h.slots.len()
            && h.slots[binds[id]->0] is Some {
            let m = h.slots[binds[id]->0]->0;
            HotState {
                slots: h.slots.update(binds[id]->0, Some(m.state_model(h.bay))),
                bay: m.bay_model(h.bay),
            }
        } else {
            h
        }
    }
}

/// The tick state replays its own log: its slot table and patchbay are what
/// processing the logged ids in order produces from `slots0` and `bay0`.
pub open spec fn replays_log<const SAMPLE_RATE: usize, M: Module<SAMPLE_RATE>>(
    st: TickState<M>,
    slots0: Seq<Option<M>>,
    bay0: BayView,
) -> bool {
    &&& st.slots == replay::<SAMPLE_RATE, M>(slots0, st.binds, st.log, bay0).slots
    &&& st.bay == replay::<SAMPLE_RATE, M>(slots0, st.binds, st.log, bay0).bay
}

proof fn lemma_greedy_step_replays<const SAMPLE_RATE: usize, M: Module<SAMPLE_RATE>>(
    st: TickState<M>,
    id: int,
    slots0: Seq<Option<M>>,
    bay0: BayView,
)
    requires
        tick_wf(st),
        0 <= id < st.binds.len(),
        replays_log::<SAMPLE_RATE, M>(st, slots0, bay0),
    ensures
        tick_wf(greedy_step::<SAMPLE_RATE, M>(st, id)),
        greedy_step::<SAMPLE_RATE, M>(st, id).binds == st.binds,
        replays_log::<SAMPLE_RATE, M>(greedy_step::<SAMPLE_RATE, M>(st, id), slots0, bay0),
{
    let st2 = greedy_step::<SAMPLE_RATE, M>(st, id);
    if !st.done[id] && st.binds[id] is Some && st.slots[st.binds[id]->0] is Some
        && st.slots[st.binds[id]->0]->0.ready_model(st.bay) {
        assert(st2.log == st.log.push(id));
        assert(st.log.push(id).drop_last() =~= st.log);
        assert(st.log.push(id).last() == id);
        assert(replay::<SAMPLE_RATE, M>(slots0, st.binds, st.log, bay0).slots == st.slots);
    }
}

proof fn lemma_residual_step_replays<const SAMPLE_RATE: usize, M: Module<SAMPLE_RATE>>(
    st: TickState<M>,
    id: int,
    slots0: Seq<Option<M>>,
    bay0: BayView,
)
    requires
        tick_wf(st),
        0 <= id < st.binds.len(),
        replays_log::<SAMPLE_RATE, M>(st, slots0, bay0),
    ensures
        tick_wf(residual_step::<SAMPLE_RATE, M>(st, id)),
        residual_step::<SAMPLE_RATE, M>(st, id).binds == st.binds,
        replays_log::<SAMPLE_RATE, M>(residual_step::<SAMPLE_RATE, M>(st, id), slots0, bay0),
{
    let st2 = residual_step::<SAMPLE_RATE, M>(st, id);
    if !st.done[id] && st.binds[id] is Some && st.slots[st.binds[id]->0] is Some {
        assert(st2.log == st.log.push(id));
        assert(st.log.push(id).drop_last() =~= st.log);
        assert(st.log.push(id).last() == id);
        assert(replay::<SAMPLE_RATE, M>(slots0, st.binds, st.log, bay0).slots == st.slots);
    }
}

proof fn lemma_greedy_pass_replays<const SAMPLE_RATE: usize, M: Module<SAMPLE_RATE>>(
    st: TickState<M>,
    n: int,
    slots0: Seq<Option<M>>,
    bay0: BayView,
)
    requires
        tick_wf(st),
        0 <= n <= st.binds.len(),
        replays_log::<SAMPLE_RATE, M>(st, slots0, bay0),
    ensures
        tick_wf(greedy_pass::<SAMPLE_RATE, M>(st, n)),
        greedy_pass::<SAMPLE_RATE, M>(st, n).binds == st.binds,
        replays_log::<SAMPLE_RATE, M>(greedy_pass::<SAMPLE_RATE, M>(st, n), slots0, bay0),
    decreases n,
{
    if n > 0 {
        lemma_greedy_pass_replays(st, n - 1, slots0, bay0);
        lemma_greedy_step_replays(greedy_pass::<SAMPLE_RATE, M>(st, n - 1), n - 1, slots0, bay0);
    }
}

proof fn lemma_residual_pass_replays<const SAMPLE_RATE: usize, M: Module<SAMPLE_RATE>>(
    st: TickState<M>,
    n: int,
    slots0: Seq<Option<M>>,
    bay0: BayView,
)
    requires
        tick_wf(st),
        0 <= n <= st.binds.len(),
        replays_log::<SAMPLE_RATE, M>(st, slots0, bay0),
    ensures
        tick_wf(residual_pass::<SAMPLE_RATE, M>(st, n)),
        residual_pass::<SAMPLE_RATE, M>(st, n).binds == st.binds,
        replays_log::<SAMPLE_RATE, M>(residual_pass::<SAMPLE_RATE, M>(st, n), slots0, bay0),
    decreases n,
{
    if n > 0 {
        lemma_residual_pass_replays(st, n - 1, slots0, bay0);
        lemma_residual_step_replays(residual_pass::<SAMPLE_RATE, M>(st, n - 1), n - 1, slots0, bay0);
    }
}

proof fn lemma_greedy_rounds_replays<const SAMPLE_RATE: usize, M: Module<SAMPLE_RATE>>(
    st: TickState<M>,
    slots0: Seq<Option<M>>,
    bay0: BayView,
)
    requires
        tick_wf(st),
        replays_log::<SAMPLE_RATE, M>(st, slots0, bay0),
    ensures
        tick_wf(greedy_rounds::<SAMPLE_RATE, M>(st)),
        greedy_rounds::<SAMPLE_RATE, M>(st).binds == st.binds,
        replays_log::<SAMPLE_RATE, M>(greedy_rounds::<SAMPLE_RATE, M>(st), slots0, bay0),
    decreases st.done.len() - count_done(st.done, st.done.len() as int),
{
    lemma_count_done_bounds(st.done, st.done.len() as int);
    let st2 = greedy_pass::<SAMPLE_RATE, M>(st, st.binds.len() as int);
    lemma_greedy_pass_replays(st, st.binds.len() as int, slots0, bay0);
    lemma_count_done_bounds(st2.done, st2.done.len() as int);
    if st2.done.len() == st.done.len() && count_done(st2.done, st2.done.len() as int) > count_done(
        st.done,
        st.done.len() as int,
    ) {
        lemma_greedy_rounds_replays(st2, slots0, bay0);
    }
}

/// The id bound to `id` names an occupied slot in `st`.
pub open spec fn live<M>(st: TickState<M>, id: int) -> bool {
    &&& st.binds[id] is Some
    &&& 0 <= st.binds[id]->0 < st.slots.len()
    &&& st.slots[st.binds[id]->0] is Some
}

/// The log and the placement table are mutually inverse: position `k` of the
/// log holds the id placed at `k`, and every placed id sits in the log at
/// its recorded position.
pub open spec fn log_places<M>(st: TickState<M>) -> bool {
    &&& st.next == st.log.len()
    &&& forall|k: int|
        0 <= k < st.log.len() ==> 0 <= #[trigger] st.log[k] < st.placed.len()
            && st.placed[st.log[k]] == Some(k)
    &&& forall|id: int|
        0 <= id < st.placed.len() && #[trigger] st.placed[id] is Some ==> 0 <= st.placed[id]->0
            < st.log.len() && st.log[st.placed[id]->0] == id
}

/// What the greedy phase keeps of the bookkeeping: log and placement inverse
/// to each other, an id placed exactly when it is done, and liveness of each
/// id unchanged.
pub open spec fn greedy_books<M>(st: TickState<M>) -> bool {
    &&& log_places(st)
    &&& forall|id: int|
        0 <= id < st.binds.len() ==> (#[trigger] st.placed[id] is Some <==> st.done[id])
    &&& forall|id: int| 0 <= id < st.binds.len() && #[trigger] st.done[id] ==> live(st, id)
}

proof fn lemma_greedy_step_books<const SAMPLE_RATE: usize, M: Module<SAMPLE_RATE>>(
    st: TickState<M>,
    id: int,
)
    requires
        tick_wf(st),
        0 <= id < st.binds.len(),
        greedy_books(st),
    ensures
        greedy_books(greedy_step::<SAMPLE_RATE, M>(st, id)),
        forall|id2: int|
            0 <= id2 < st.binds.len() ==> (live(greedy_step::<SAMPLE_RATE, M>(st, id), id2)
                <==> live(st, id2)),
{
}

proof fn lemma_greedy_pass_books<const SAMPLE_RATE: usize, M: Module<SAMPLE_RATE>>(
    st: TickState<M>,
    n: int,
)
    requires
        tick_wf(st),
        0 <= n <= st.binds.len(),
        greedy_books(st),
    ensures
        tick_wf(greedy_pass::<SAMPLE_RATE, M>(st, n)),
        greedy_books(greedy_pass::<SAMPLE_RATE, M>(st, n)),
        forall|id2: int|
            0 <= id2 < st.binds.len() ==> (live(greedy_pass::<SAMPLE_RATE, M>(st, n), id2)
                <==> live(st, id2)),
    decreases n,
{
    lemma_greedy_pass_shape::<SAMPLE_RATE, M>(st, n);
    if n > 0 {
        lemma_greedy_pass_books(st, n - 1);
        lemma_greedy_step_books(greedy_pass::<SAMPLE_RATE, M>(st, n - 1), n - 1);
    }
}

proof fn lemma_greedy_rounds_books<const SAMPLE_RATE: usize, M: Module<SAMPLE_RATE>>(
    st: TickState<M>,
)
    requires
        tick_wf(st),
        greedy_books(st),
    ensures
        tick_wf(greedy_rounds::<SAMPLE_RATE, M>(st)),
        greedy_books(greedy_rounds::<SAMPLE_RATE, M>(st)),
        greedy_rounds::<SAMPLE_RATE, M>(st).binds == st.binds,
        forall|id2: int|
            0 <= id2 < st.binds.len() ==> (live(greedy_rounds::<SAMPLE_RATE, M>(st), id2)
                <==> live(st, id2)),
    decreases st.done.len() - count_done(st.done, st.done.len() as int),
{
    lemma_count_done_bounds(st.done, st.done.len() as int);
    let st2 = greedy_pass::<SAMPLE_RATE, M>(st, st.binds.len() as int);
    lemma_greedy_pass_books(st, st.binds.len() as int);
    lemma_greedy_pass_shape::<SAMPLE_RATE, M>(st, st.binds.len() as int);
    lemma_count_done_bounds(st2.done, st2.done.len() as int);
    if st2.done.len() == st.done.len() && count_done(st2.done, st2.done.len() as int) > count_done(
        st.done,
        st.done.len() as int,
    ) {
        lemma_greedy_rounds_books(st2);
    }
}

proof fn lemma_residual_pass_books<const SAMPLE_RATE: usize, M: Module<SAMPLE_RATE>>(
    st: TickState<M>,
    n: int,
)
    requires
        tick_wf(st),
        0 <= n <= st.binds.len(),
        log_places(st),
        forall|id: int|
            0 <= id < st.binds.len() ==> (#[trigger] st.placed[id] is Some <==> st.done[id]),
    ensures
        tick_wf(residual_pass::<SAMPLE_RATE, M>(st, n)),
        log_places(residual_pass::<SAMPLE_RATE, M>(st, n)),
        residual_pass::<SAMPLE_RATE, M>(st, n).done == st.done,
        residual_pass::<SAMPLE_RATE, M>(st, n).binds == st.binds,
        forall|id2: int|
            0 <= id2 < st.binds.len() ==> (live(residual_pass::<SAMPLE_RATE, M>(st, n), id2)
                <==> live(st, id2)),
        forall|id: int|
            0 <= id < st.binds.len() ==> (#[trigger] residual_pass::<SAMPLE_RATE, M>(
                st,
                n,
            ).placed[id] is Some <==> (st.done[id] || (0 <= id < n && !st.done[id] && live(
                st,
                id,
            )))),
    decreases n,
{
    if n > 0 {
        lemma_residual_pass_books(st, n - 1);
        let mid = residual_pass::<SAMPLE_RATE, M>(st, n - 1);
        let nxt = residual_step::<SAMPLE_RATE, M>(mid, n - 1);
        if !mid.done[n - 1] && mid.binds[n - 1] is Some && mid.slots[mid.binds[n - 1]->0] is Some {
            assert(mid.placed[n - 1] is None);
            assert(nxt.log == mid.log.push(n - 1));
            assert forall|k: int|
                0 <= k < nxt.log.len() implies 0 <= #[trigger] nxt.log[k] < nxt.placed.len()
                    && nxt.placed[nxt.log[k]] == Some(k) by {
                if k < mid.log.len() {
                    assert(nxt.log[k] == mid.log[k]);
                    assert(mid.placed[mid.log[k]] == Some(k));
                    assert(mid.log[k] != n - 1);
                } else {
                    assert(nxt.log[k] == n - 1);
                    assert(nxt.placed[n - 1] == Some(mid.next));
                }
            };
            assert forall|id: int|
                0 <= id < nxt.placed.len() && #[trigger] nxt.placed[id] is Some implies 0
                    <= nxt.placed[id]->0 < nxt.log.len() && nxt.log[nxt.placed[id]->0] == id by {
                if id != n - 1 {
                    assert(mid.placed[id] is Some);
                    assert(mid.log[mid.placed[id]->0] == id);
                    assert(nxt.log[mid.placed[id]->0] == id);
                } else {
                    assert(nxt.placed[id] == Some(mid.next));
                    assert(nxt.log[mid.next] == n - 1);
                }
            };
        }
    }
}

/// Every module occupying a slot is processed exactly once per discovery
/// tick: the discovery log contains each bound, occupied id exactly once —
/// it has no duplicates, and an id appears in it precisely when it is bound
/// to an occupied slot — so the tick applies one `process` step, and one
/// only, to every stored module.
pub proof fn lemma_discovery_each_once<const SAMPLE_RATE: usize, M: Module<SAMPLE_RATE>>(
    slots: Seq<Option<M>>,
    binds: Seq<Option<int>>,
    bay: BayView,
)
    requires
        forall|i: int|
            0 <= i < binds.len() && #[trigger] binds[i] is Some ==> 0 <= binds[i]->0 < slots.len(),
    ensures
        ({
            let st = discovery::<SAMPLE_RATE, M>(slots, binds, bay);
            &&& st.log.no_duplicates()
            &&& forall|id: int|
                0 <= id < binds.len() ==> (#[trigger] st.placed[id] is Some <==> (binds[id] is Some
                    && slots[binds[id]->0] is Some))
            &&& forall|id: int|
                0 <= id < binds.len() && #[trigger] st.placed[id] is Some ==> 0 <= st.placed[id]->0
                    < st.log.len() && st.log[st.placed[id]->0] == id
            &&& forall|k: int|
                0 <= k < st.log.len() ==> 0 <= #[trigger] st.log[k] < binds.len()
                    && st.placed[st.log[k]] == Some(k)
        }),
{
    let st0 = tick_start::<SAMPLE_RATE, M>(slots, binds, bay);
    assert(tick_wf(st0));
    assert(greedy_books(st0));
    lemma_greedy_rounds_books(st0);
    let stg = greedy_rounds::<SAMPLE_RATE, M>(st0);
    lemma_residual_pass_books(stg, stg.binds.len() as int);
    let st = discovery::<SAMPLE_RATE, M>(slots, binds, bay);
    assert forall|id: int|
        0 <= id < binds.len() implies (#[trigger] st.placed[id] is Some <==> (binds[id] is Some
            && slots[binds[id]->0] is Some)) by {
        assert(live(stg, id) <==> live(st0, id));
        assert(stg.done[id] ==> live(stg, id));
        assert(st.placed[id] is Some <==> (stg.done[id] || (!stg.done[id] && live(stg, id))));
    };
    assert forall|k1: int, k2: int|
        0 <= k1 < st.log.len() && 0 <= k2 < st.log.len() && k1 != k2 implies st.log[k1]
            != st.log[k2] by {
        assert(st.placed[st.log[k1]] == Some(k1));
        assert(st.placed[st.log[k2]] == Some(k2));
    };
    assert(st.log.no_duplicates());
}

/// The slot table a discovered order stands for: position `p` holds the
/// module of the id logged at `p`, in its state at the start of the tick,
/// and the tail beyond the log is empty — the arrangement compaction builds.
pub open spec fn arrange<M>(
    slots0: Seq<Option<M>>,
    binds: Seq<Option<int>>,
    log: Seq<int>,
) -> Seq<Option<M>> {
    Seq::new(
        slots0.len(),
        |p: int|
            if 0 <= p < log.len() && 0 <= log[p] < binds.len() && binds[log[p]] is Some {
                slots0[binds[log[p]]->0]
            } else {
                None
            },
    )
}

/// A well-formed discovered order over a slot table: every logged id is
/// bound to an occupied slot in range, no id is logged twice, distinct ids
/// hold distinct slots, and the log fits the table.
pub open spec fn order_fits<M>(slots0: Seq<Option<M>>, binds: Seq<Option<int>>, log: Seq<int>) -> bool {
    &&& log.len() <= slots0.len()
    &&& log.no_duplicates()
    &&& forall|k: int|
        0 <= k < log.len() ==> {
            let id = #[trigger] log[k];
            &&& 0 <= id < binds.len()
            &&& binds[id] is Some
            &&& 0 <= binds[id]->0 < slots0.len()
            &&& slots0[binds[id]->0] is Some
        }
    &&& forall|i1: int, i2: int|
        #![trigger binds[i1], binds[i2]]
        0 <= i1 < binds.len() && 0 <= i2 < binds.len() && i1 != i2 && binds[i1] is Some
            && binds[i2] is Some ==> binds[i1]->0 != binds[i2]->0
}

proof fn lemma_hot_runs_log_prefix<const SAMPLE_RATE: usize, M: Module<SAMPLE_RATE>>(
    slots0: Seq<Option<M>>,
    binds: Seq<Option<int>>,
    log: Seq<int>,
    bay0: BayView,
    k: int,
)
    requires
        order_fits(slots0, binds, log),
        0 <= k <= log.len(),
    ensures
        ({
            let hs = HotState { slots: arrange(slots0, binds, log), bay: bay0 };
            let hk = hot_pass::<SAMPLE_RATE, M>(hs, k);
            let rk = replay::<SAMPLE_RATE, M>(slots0, binds, log.subrange(0, k), bay0);
            &&& hk.bay == rk.bay
            &&& rk.slots.len() == slots0.len()
            &&& forall|j: int|
                k <= j < log.len() ==> #[trigger] rk.slots[binds[log[j]]->0] == slots0[binds[log[j]]->0]
        }),
    decreases k,
{
    let hs = HotState { slots: arrange(slots0, binds, log), bay: bay0 };
    if k == 0 {
        assert(log.subrange(0, 0) =~= Seq::<int>::empty());
    } else {
        lemma_hot_runs_log_prefix::<SAMPLE_RATE, M>(slots0, binds, log, bay0, k - 1);
        lemma_hot_pass_shape::<SAMPLE_RATE, M>(hs, k - 1);
        let hprev = hot_pass::<SAMPLE_RATE, M>(hs, k - 1);
        let sub = log.subrange(0, k);
        let rprev = replay::<SAMPLE_RATE, M>(slots0, binds, log.subrange(0, k - 1), bay0);
        assert(sub.drop_last() =~= log.subrange(0, k - 1));
        assert(sub.last() == log[k - 1]);
        let id = log[k - 1];
        let slot = binds[id]->0;
        assert(hprev.slots[k - 1] == hs.slots[k - 1]);
        assert(hs.slots[k - 1] == slots0[slot]);
        assert(rprev.slots[slot] == slots0[slot]);
        assert forall|j: int|
            k <= j < log.len() implies #[trigger] replay::<SAMPLE_RATE, M>(
            slots0,
            binds,
            sub,
            bay0,
        ).slots[binds[log[j]]->0] == slots0[binds[log[j]]->0] by {
            assert(log[j] != id);
            assert(binds[log[j]]->0 != slot);
            assert(rprev.slots[binds[log[j]]->0] == slots0[binds[log[j]]->0]);
        };
    }
}

/// The hot path runs the discovered order: a cached-order tick over the
/// arranged slot table — each logged module moved to its position, exactly
/// what compaction builds — computes the very same patchbay values as a
/// straight-line replay of the log over the initial tables.
pub proof fn lemma_hot_tick_runs_the_log<const SAMPLE_RATE: usize, M: Module<SAMPLE_RATE>>(
    slots0: Seq<Option<M>>,
    binds: Seq<Option<int>>,
    log: Seq<int>,
    bay0: BayView,
)
    requires
        order_fits(slots0, binds, log),
    ensures
        hot_pass::<SAMPLE_RATE, M>(
            HotState { slots: arrange(slots0, binds, log), bay: bay0 },
            slots0.len() as int,
        ).bay == replay::<SAMPLE_RATE, M>(slots0, binds, log, bay0).bay,
{
    let hs = HotState { slots: arrange(slots0, binds, log), bay: bay0 };
    lemma_hot_runs_log_prefix::<SAMPLE_RATE, M>(slots0, binds, log, bay0, log.len() as int);
    assert(log.subrange(0, log.len() as int) =~= log);
    assert forall|p: int| log.len() <= p < slots0.len() implies #[trigger] hs.slots[p] is None by {
        assert(hs.slots[p] == arrange(slots0, binds, log)[p]);
    };
    lemma_hot_tail_is_idle::<SAMPLE_RATE, M>(hs, log.len() as int, slots0.len() as int);
}

proof fn lemma_hot_tail_is_idle<const SAMPLE_RATE: usize, M: Module<SAMPLE_RATE>>(
    hs: HotState<M>,
    k: int,
    n: int,
)
    requires
        0 <= k <= n <= hs.slots.len(),
        forall|p: int| k <= p < n ==> #[trigger] hs.slots[p] is None,
    ensures
        hot_pass::<SAMPLE_RATE, M>(hs, n).bay == hot_pass::<SAMPLE_RATE, M>(hs, k).bay,
    decreases n - k,
{
    if k < n {
        lemma_hot_pass_shape::<SAMPLE_RATE, M>(hs, n - 1);
        lemma_hot_tail_is_idle::<SAMPLE_RATE, M>(hs, k, n - 1);
    }
}

/// Every entry of the log was appended at a moment its module reported
/// ready: replaying the log up to position `k` yields exactly the patchbay
/// state on which the module logged at `k` had a true readiness model — and
/// was then processed.
pub open spec fn log_all_ready<const SAMPLE_RATE: usize, M: Module<SAMPLE_RATE>>(
    slots0: Seq<Option<M>>,
    binds: Seq<Option<int>>,
    log: Seq<int>,
    bay0: BayView,
) -> bool {
    forall|k: int|
        0 <= k < log.len() ==> {
            let pre = replay::<SAMPLE_RATE, M>(slots0, binds, #[trigger] log.subrange(0, k), bay0);
            let id = log[k];
            &&& 0 <= id < binds.len()
            &&& binds[id] is Some
            &&& 0 <= binds[id]->0 < pre.slots.len()
            &&& pre.slots[binds[id]->0] is Some
            &&& pre.slots[binds[id]->0]->0.ready_model(pre.bay)
        }
}

proof fn lemma_greedy_step_log_ready<const SAMPLE_RATE: usize, M: Module<SAMPLE_RATE>>(
    st: TickState<M>,
    id: int,
    slots0: Seq<Option<M>>,
    bay0: BayView,
)
    requires
        tick_wf(st),
        0 <= id < st.binds.len(),
        replays_log::<SAMPLE_RATE, M>(st, slots0, bay0),
        log_all_ready::<SAMPLE_RATE, M>(slots0, st.binds, st.log, bay0),
    ensures
        log_all_ready::<SAMPLE_RATE, M>(
            slots0,
            st.binds,
            greedy_step::<SAMPLE_RATE, M>(st, id).log,
            bay0,
        ),
{
    let st2 = greedy_step::<SAMPLE_RATE, M>(st, id);
    if !st.done[id] && st.binds[id] is Some && st.slots[st.binds[id]->0] is Some
        && st.slots[st.binds[id]->0]->0.ready_model(st.bay) {
        assert forall|k: int| 0 <= k < st2.log.len() implies {
            let pre = replay::<SAMPLE_RATE, M>(
                slots0,
                st.binds,
                #[trigger] st2.log.subrange(0, k),
                bay0,
            );
            let id3 = st2.log[k];
            &&& 0 <= id3 < st.binds.len()
            &&& st.binds[id3] is Some
            &&& 0 <= st.binds[id3]->0 < pre.slots.len()
            &&& pre.slots[st.binds[id3]->0] is Some
            &&& pre.slots[st.binds[id3]->0]->0.ready_model(pre.bay)
        } by {
            if k < st.log.len() {
                assert(st2.log.subrange(0, k) =~= st.log.subrange(0, k));
                assert(st2.log[k] == st.log[k]);
            } else {
                assert(st2.log.subrange(0, k) =~= st.log);
                assert(st2.log[k] == id);
            }
        };
    }
}

proof fn lemma_greedy_pass_log_ready<const SAMPLE_RATE: usize, M: Module<SAMPLE_RATE>>(
    st: TickState<M>,
    n: int,
    slots0: Seq<Option<M>>,
    bay0: BayView,
)
    requires
        tick_wf(st),
        0 <= n <= st.binds.len(),
        replays_log::<SAMPLE_RATE, M>(st, slots0, bay0),
        log_all_ready::<SAMPLE_RATE, M>(slots0, st.binds, st.log, bay0),
    ensures
        log_all_ready::<SAMPLE_RATE, M>(
            slots0,
            st.binds,
            greedy_pass::<SAMPLE_RATE, M>(st, n).log,
            bay0,
        ),
    decreases n,
{
    if n > 0 {
        lemma_greedy_pass_log_ready(st, n - 1, slots0, bay0);
        lemma_greedy_pass_replays(st, n - 1, slots0, bay0);
        lemma_greedy_step_log_ready(greedy_pass::<SAMPLE_RATE, M>(st, n - 1), n - 1, slots0, bay0);
    }
}

proof fn lemma_greedy_rounds_log_ready<const SAMPLE_RATE: usize, M: Module<SAMPLE_RATE>>(
    st: TickState<M>,
    slots0: Seq<Option<M>>,
    bay0: BayView,
)
    requires
        tick_wf(st),
        replays_log::<SAMPLE_RATE, M>(st, slots0, bay0),
        log_all_ready::<SAMPLE_RATE, M>(slots0, st.binds, st.log, bay0),
    ensures
        log_all_ready::<SAMPLE_RATE, M>(
            slots0,
            st.binds,
            greedy_rounds::<SAMPLE_RATE, M>(st).log,
            bay0,
        ),
    decreases st.done.len() - count_done(st.done, st.done.len() as int),
{
    lemma_count_done_bounds(st.done, st.done.len() as int);
    let st2 = greedy_pass::<SAMPLE_RATE, M>(st, st.binds.len() as int);
    lemma_greedy_pass_log_ready(st, st.binds.len() as int, slots0, bay0);
    lemma_greedy_pass_replays(st, st.binds.len() as int, slots0, bay0);
    lemma_count_done_bounds(st2.done, st2.done.len() as int);
    if st2.done.len() == st.done.len() && count_done(st2.done, st2.done.len() as int) > count_done(
        st.done,
        st.done.len() as int,
    ) {
        lemma_greedy_rounds_log_ready(st2, slots0, bay0);
    }
}

/// Every module the greedy phase processes is processed on a patchbay state
/// its readiness report approved: the greedy log replays so that each logged
/// module's readiness model holds on the exact bay it is then processed
/// against. Joined with an honest readiness model — true exactly when the
/// inputs the module will read are fresh — this says a module reads the very
/// values its preceding `is_ready` saw as fresh in the same tick.
pub proof fn lemma_greedy_phase_log_all_ready<const SAMPLE_RATE: usize, M: Module<SAMPLE_RATE>>(
    slots: Seq<Option<M>>,
    binds: Seq<Option<int>>,
    bay: BayView,
)
    requires
        forall|i: int|
            0 <= i < binds.len() && #[trigger] binds[i] is Some ==> 0 <= binds[i]->0 < slots.len(),
    ensures
        log_all_ready::<SAMPLE_RATE, M>(
            slots,
            binds,
            greedy_rounds::<SAMPLE_RATE, M>(tick_start::<SAMPLE_RATE, M>(slots, binds, bay)).log,
            bay.cleared(),
        ),
{
    let st0 = tick_start::<SAMPLE_RATE, M>(slots, binds, bay);
    assert(tick_wf(st0));
    assert(replays_log::<SAMPLE_RATE, M>(st0, slots, bay.cleared()));
    lemma_greedy_rounds_log_ready(st0, slots, bay.cleared());
}

/// `order_valid` after a discovery tick means what it says: an untouched
/// replay of the discovered order reproduces the tick. Processing the
/// initial modules in the logged order, straight-line and without any
/// readiness checks — exactly what a later cached-order tick does with the
/// rearranged slots — yields the very slot contents and patchbay state the
/// discovery tick computed.
pub proof fn lemma_discovery_replays_log<const SAMPLE_RATE: usize, M: Module<SAMPLE_RATE>>(
    slots: Seq<Option<M>>,
    binds: Seq<Option<int>>,
    bay: BayView,
)
    requires
        forall|i: int|
            0 <= i < binds.len() && #[trigger] binds[i] is Some ==> 0 <= binds[i]->0 < slots.len(),
    ensures
        ({
            let st = discovery::<SAMPLE_RATE, M>(slots, binds, bay);
            &&& st.binds == binds
            &&& st.slots == replay::<SAMPLE_RATE, M>(slots, binds, st.log, bay.cleared()).slots
            &&& st.bay == replay::<SAMPLE_RATE, M>(slots, binds, st.log, bay.cleared()).bay
        }),
{
    let st0 = tick_start::<SAMPLE_RATE, M>(slots, binds, bay);
    assert(tick_wf(st0));
    assert(replays_log::<SAMPLE_RATE, M>(st0, slots, bay.cleared()));
    lemma_greedy_rounds_replays(st0, slots, bay.cleared());
    let stg = greedy_rounds::<SAMPLE_RATE, M>(st0);
    lemma_residual_pass_replays(stg, stg.binds.len() as int, slots, bay.cleared());
}

/// An honest readiness report over a patchbay of capacity `p`: the module's
/// readiness model holds exactly when every point in `ins` is fresh — the
/// signals the module would consult in its next `process` call.
pub open spec fn reads_exactly<const SAMPLE_RATE: usize, M: Module<SAMPLE_RATE>>(
    m: M,
    ins: Set<int>,
    p: nat,
) -> bool {
    forall|b: BayView|
        b.fresh.len() == p ==> (#[trigger] m.ready_model(b) <==> (forall|i: int|
            #[trigger] ins.contains(i) ==> 0 <= i < p && b.fresh[i]))
}

/// An honest writer over a patchbay of capacity `p`: one `process` call
/// marks every point in `outs` fresh, never clears a freshness mark, and
/// leaves the patchbay capacity alone.
pub open spec fn writes_outputs<const SAMPLE_RATE: usize, M: Module<SAMPLE_RATE>>(
    m: M,
    outs: Set<int>,
    p: nat,
) -> bool {
    forall|b: BayView|
        b.fresh.len() == p ==> {
            let b2 = #[trigger] m.bay_model(b);
            &&& b2.fresh.len() == p
            &&& (forall|i: int| #[trigger] outs.contains(i) ==> 0 <= i < p && b2.fresh[i])
            &&& (forall|i: int| 0 <= i < p && b.fresh[i] ==> b2.fresh[i])
        }
}

/// A wiring over the bound modules: each bound id's module honestly reports
/// the inputs `ins[id]` and marks the outputs `outs[id]`, every bound slot
/// is occupied and in range, and distinct ids hold distinct slots.
pub open spec fn honest_wiring<const SAMPLE_RATE: usize, M: Module<SAMPLE_RATE>>(
    slots0: Seq<Option<M>>,
    binds: Seq<Option<int>>,
    ins: Seq<Set<int>>,
    outs: Seq<Set<int>>,
    p: nat,
) -> bool {
    &&& ins.len() == binds.len()
    &&& outs.len() == binds.len()
    &&& forall|id: int|
        0 <= id < binds.len() && #[trigger] binds[id] is Some ==> {
            &&& 0 <= binds[id]->0 < slots0.len()
            &&& slots0[binds[id]->0] is Some
            &&& reads_exactly::<SAMPLE_RATE, M>(slots0[binds[id]->0]->0, ins[id], p)
            &&& writes_outputs::<SAMPLE_RATE, M>(slots0[binds[id]->0]->0, outs[id], p)
        }
    &&& forall|i1: int, i2: int|
        #![trigger binds[i1], binds[i2]]
        0 <= i1 < binds.len() && 0 <= i2 < binds.len() && i1 != i2 && binds[i1] is Some
            && binds[i2] is Some ==> binds[i1]->0 != binds[i2]->0
}

/// The wiring is acyclic: a rank orders the bound modules so that every
/// input of a module is an output of some bound module of strictly smaller
/// rank.
pub open spec fn acyclic_wiring(
    binds: Seq<Option<int>>,
    ins: Seq<Set<int>>,
    outs: Seq<Set<int>>,
    rank: Seq<int>,
) -> bool {
    &&& rank.len() == binds.len()
    &&& forall|id: int| 0 <= id < binds.len() && #[trigger] binds[id] is Some ==> 0 <= rank[id]
    &&& forall|id: int, i: int|
        0 <= id < binds.len() && binds[id] is Some && #[trigger] ins[id].contains(i) ==> exists|
            id2: int,
        |
            0 <= id2 < binds.len() && #[trigger] binds[id2] is Some && outs[id2].contains(i)
                && rank[id2] < rank[id]
}

/// What the greedy phase maintains over an honest wiring: the tables keep
/// their shape, a module not yet processed still has its initial state, a
/// processed id's outputs are fresh, and bound slots stay occupied.
pub open spec fn greedy_inv<const SAMPLE_RATE: usize, M: Module<SAMPLE_RATE>>(
    st: TickState<M>,
    slots0: Seq<Option<M>>,
    binds: Seq<Option<int>>,
    outs: Seq<Set<int>>,
    p: nat,
) -> bool {
    &&& tick_wf(st)
    &&& st.binds == binds
    &&& st.slots.len() == slots0.len()
    &&& st.bay.fresh.len() == p
    &&& forall|id: int|
        0 <= id < binds.len() && #[trigger] binds[id] is Some && !st.done[id]
            ==> st.slots[binds[id]->0] == slots0[binds[id]->0]
    &&& forall|id: int| 0 <= id < binds.len() && #[trigger] st.done[id] ==> binds[id] is Some
    &&& forall|id: int, i: int|
        0 <= id < binds.len() && #[trigger] st.done[id] && #[trigger] outs[id].contains(i) ==> 0
            <= i < p && st.bay.fresh[i]
    &&& forall|id: int|
        0 <= id < binds.len() && #[trigger] binds[id] is Some ==> st.slots[binds[id]->0] is Some
}

proof fn lemma_greedy_step_inv<const SAMPLE_RATE: usize, M: Module<SAMPLE_RATE>>(
    st: TickState<M>,
    id: int,
    slots0: Seq<Option<M>>,
    binds: Seq<Option<int>>,
    ins: Seq<Set<int>>,
    outs: Seq<Set<int>>,
    p: nat,
)
    requires
        honest_wiring::<SAMPLE_RATE, M>(slots0, binds, ins, outs, p),
        greedy_inv::<SAMPLE_RATE, M>(st, slots0, binds, outs, p),
        0 <= id < binds.len(),
    ensures
        greedy_inv::<SAMPLE_RATE, M>(greedy_step::<SAMPLE_RATE, M>(st, id), slots0, binds, outs, p),
{
    let st2 = greedy_step::<SAMPLE_RATE, M>(st, id);
    if !st.done[id] && st.binds[id] is Some && st.slots[st.binds[id]->0] is Some
        && st.slots[st.binds[id]->0]->0.ready_model(st.bay) {
        let slot = binds[id]->0;
        let m = slots0[slot]->0;
        assert(st.slots[slot] == slots0[slot]);
        assert(writes_outputs::<SAMPLE_RATE, M>(m, outs[id], p));
        assert(st2.bay == m.bay_model(st.bay));
        assert forall|id3: int, i: int|
            0 <= id3 < binds.len() && #[trigger] st2.done[id3] && #[trigger] outs[id3].contains(
                i,
            ) implies 0 <= i < p && st2.bay.fresh[i] by {
            if id3 != id {
                assert(st.done[id3]);
                assert(0 <= i < p && st.bay.fresh[i]);
            }
        };
    }
}

proof fn lemma_greedy_pass_inv<const SAMPLE_RATE: usize, M: Module<SAMPLE_RATE>>(
    st: TickState<M>,
    n: int,
    slots0: Seq<Option<M>>,
    binds: Seq<Option<int>>,
    ins: Seq<Set<int>>,
    outs: Seq<Set<int>>,
    p: nat,
)
    requires
        honest_wiring::<SAMPLE_RATE, M>(slots0, binds, ins, outs, p),
        greedy_inv::<SAMPLE_RATE, M>(st, slots0, binds, outs, p),
        0 <= n <= binds.len(),
    ensures
        greedy_inv::<SAMPLE_RATE, M>(greedy_pass::<SAMPLE_RATE, M>(st, n), slots0, binds, outs, p),
    decreases n,
{
    if n > 0 {
        lemma_greedy_pass_inv(st, n - 1, slots0, binds, ins, outs, p);
        lemma_greedy_step_inv(
            greedy_pass::<SAMPLE_RATE, M>(st, n - 1),
            n - 1,
            slots0,
            binds,
            ins,
            outs,
            p,
        );
    }
}

proof fn lemma_greedy_rounds_inv<const SAMPLE_RATE: usize, M: Module<SAMPLE_RATE>>(
    st: TickState<M>,
    slots0: Seq<Option<M>>,
    binds: Seq<Option<int>>,
    ins: Seq<Set<int>>,
    outs: Seq<Set<int>>,
    p: nat,
)
    requires
        honest_wiring::<SAMPLE_RATE, M>(slots0, binds, ins, outs, p),
        greedy_inv::<SAMPLE_RATE, M>(st, slots0, binds, outs, p),
    ensures
        greedy_inv::<SAMPLE_RATE, M>(greedy_rounds::<SAMPLE_RATE, M>(st), slots0, binds, outs, p),
    decreases st.done.len() - count_done(st.done, st.done.len() as int),
{
    lemma_count_done_bounds(st.done, st.done.len() as int);
    let st2 = greedy_pass::<SAMPLE_RATE, M>(st, st.binds.len() as int);
    lemma_greedy_pass_inv(st, st.binds.len() as int, slots0, binds, ins, outs, p);
    lemma_count_done_bounds(st2.done, st2.done.len() as int);
    if st2.done.len() == st.done.len() && count_done(st2.done, st2.done.len() as int) > count_done(
        st.done,
        st.done.len() as int,
    ) {
        lemma_greedy_rounds_inv(st2, slots0, binds, ins, outs, p);
    }
}

pub proof fn lemma_count_done_mono(a: Seq<bool>, b: Seq<bool>, n: int)
    requires
        forall|j: int| 0 <= j < n ==> a[j] ==> b[j],
    ensures
        count_done(a, n) <= count_done(b, n),
    decreases n,
{
    if n > 0 {
        lemma_count_done_mono(a, b, n - 1);
    }
}

proof fn lemma_pass_stuck<const SAMPLE_RATE: usize, M: Module<SAMPLE_RATE>>(
    st: TickState<M>,
    n: int,
)
    requires
        tick_wf(st),
        0 <= n <= st.binds.len(),
        count_done(
            greedy_pass::<SAMPLE_RATE, M>(st, n).done,
            st.done.len() as int,
        ) == count_done(st.done, st.done.len() as int),
    ensures
        greedy_pass::<SAMPLE_RATE, M>(st, n) == st,
        forall|k: int| 0 <= k < n ==> greedy_step::<SAMPLE_RATE, M>(st, k) == st,
    decreases n,
{
    if n > 0 {
        let prev = greedy_pass::<SAMPLE_RATE, M>(st, n - 1);
        lemma_greedy_pass_shape::<SAMPLE_RATE, M>(st, n - 1);
        lemma_count_done_mono(st.done, prev.done, st.done.len() as int);
        let last = greedy_step::<SAMPLE_RATE, M>(prev, n - 1);
        if last != prev {
            lemma_count_done_update(prev.done, st.done.len() as int, n - 1);
            lemma_count_done_mono(prev.done, last.done, st.done.len() as int);
        }
        assert(count_done(prev.done, st.done.len() as int) == count_done(
            st.done,
            st.done.len() as int,
        ));
        lemma_pass_stuck(st, n - 1);
        assert(last == greedy_step::<SAMPLE_RATE, M>(st, n - 1));
        if greedy_step::<SAMPLE_RATE, M>(st, n - 1) != st {
            lemma_count_done_update(st.done, st.done.len() as int, n - 1);
        }
    }
}

proof fn lemma_rounds_stuck<const SAMPLE_RATE: usize, M: Module<SAMPLE_RATE>>(st: TickState<M>)
    requires
        tick_wf(st),
    ensures
        tick_wf(greedy_rounds::<SAMPLE_RATE, M>(st)),
        forall|k: int|
            0 <= k < greedy_rounds::<SAMPLE_RATE, M>(st).binds.len()
                ==> #[trigger] greedy_step::<SAMPLE_RATE, M>(greedy_rounds::<SAMPLE_RATE, M>(st), k)
                == greedy_rounds::<SAMPLE_RATE, M>(st),
    decreases st.done.len() - count_done(st.done, st.done.len() as int),
{
    lemma_count_done_bounds(st.done, st.done.len() as int);
    let st2 = greedy_pass::<SAMPLE_RATE, M>(st, st.binds.len() as int);
    lemma_greedy_pass_shape::<SAMPLE_RATE, M>(st, st.binds.len() as int);
    lemma_count_done_bounds(st2.done, st2.done.len() as int);
    if st2.done.len() == st.done.len() && count_done(st2.done, st2.done.len() as int) > count_done(
        st.done,
        st.done.len() as int,
    ) {
        lemma_rounds_stuck(st2);
    } else {
        lemma_count_done_mono(st.done, st2.done, st.done.len() as int);
        lemma_pass_stuck(st, st.binds.len() as int);
        assert(st2 == st);
    }
}

proof fn lemma_acyclic_done<const SAMPLE_RATE: usize, M: Module<SAMPLE_RATE>>(
    stf: TickState<M>,
    slots0: Seq<Option<M>>,
    binds: Seq<Option<int>>,
    ins: Seq<Set<int>>,
    outs: Seq<Set<int>>,
    rank: Seq<int>,
    p: nat,
    id: int,
)
    requires
        honest_wiring::<SAMPLE_RATE, M>(slots0, binds, ins, outs, p),
        acyclic_wiring(binds, ins, outs, rank),
        greedy_inv::<SAMPLE_RATE, M>(stf, slots0, binds, outs, p),
        forall|k: int|
            0 <= k < binds.len() ==> #[trigger] greedy_step::<SAMPLE_RATE, M>(stf, k) == stf,
        0 <= id < binds.len(),
        binds[id] is Some,
    ensures
        stf.done[id],
    decreases rank[id],
{
    if !stf.done[id] {
        let m = slots0[binds[id]->0]->0;
        assert(stf.slots[binds[id]->0] == slots0[binds[id]->0]);
        assert forall|i: int| #[trigger] ins[id].contains(i) implies 0 <= i < p
            && stf.bay.fresh[i] by {
            let id2 = choose|id2: int|
                0 <= id2 < binds.len() && #[trigger] binds[id2] is Some && outs[id2].contains(i)
                    && rank[id2] < rank[id];
            lemma_acyclic_done(stf, slots0, binds, ins, outs, rank, p, id2);
            assert(stf.done[id2] && outs[id2].contains(i));
        };
        assert(reads_exactly::<SAMPLE_RATE, M>(m, ins[id], p));
        assert(m.ready_model(stf.bay));
        assert(greedy_step::<SAMPLE_RATE, M>(stf, id).next == stf.next + 1);
        assert(false);
    }
}

proof fn lemma_residual_identity<const SAMPLE_RATE: usize, M: Module<SAMPLE_RATE>>(
    st: TickState<M>,
    n: int,
)
    requires
        0 <= n <= st.binds.len(),
        st.done.len() == st.binds.len(),
        forall|id: int| 0 <= id < n && #[trigger] st.binds[id] is Some ==> st.done[id],
    ensures
        residual_pass::<SAMPLE_RATE, M>(st, n) == st,
    decreases n,
{
    if n > 0 {
        lemma_residual_identity(st, n - 1);
    }
}

/// For an acyclic wiring of honest modules the greedy phase alone processes
/// every bound module: the residual pass finds nothing to do, and the
/// discovery tick equals the greedy fixpoint. Because a greedy step only
/// fires when the module's readiness model holds — all of its inputs fresh
/// on the very bay it is then processed against (see
/// [`lemma_greedy_step_on_approved_bay`]) — every consuming module observes
/// its producers' current-tick outputs, never a stale value.
pub proof fn lemma_acyclic_all_greedy<const SAMPLE_RATE: usize, M: Module<SAMPLE_RATE>>(
    slots: Seq<Option<M>>,
    binds: Seq<Option<int>>,
    bay: BayView,
    ins: Seq<Set<int>>,
    outs: Seq<Set<int>>,
    rank: Seq<int>,
)
    requires
        honest_wiring::<SAMPLE_RATE, M>(slots, binds, ins, outs, bay.fresh.len()),
        acyclic_wiring(binds, ins, outs, rank),
    ensures
        ({
            let st = greedy_rounds::<SAMPLE_RATE, M>(tick_start::<SAMPLE_RATE, M>(
                slots,
                binds,
                bay,
            ));
            &&& forall|id: int|
                0 <= id < binds.len() && #[trigger] binds[id] is Some ==> st.done[id]
            &&& discovery::<SAMPLE_RATE, M>(slots, binds, bay) == st
            &&& log_all_ready::<SAMPLE_RATE, M>(
                slots,
                binds,
                discovery::<SAMPLE_RATE, M>(slots, binds, bay).log,
                bay.cleared(),
            )
        }),
{
    lemma_greedy_phase_log_all_ready::<SAMPLE_RATE, M>(slots, binds, bay);
    let p = bay.fresh.len();
    let st0 = tick_start::<SAMPLE_RATE, M>(slots, binds, bay);
    assert(st0.bay.fresh.len() == p);
    assert(greedy_inv::<SAMPLE_RATE, M>(st0, slots, binds, outs, p));
    lemma_greedy_rounds_inv(st0, slots, binds, ins, outs, p);
    lemma_rounds_stuck(st0);
    let st = greedy_rounds::<SAMPLE_RATE, M>(st0);
    assert forall|id: int|
        0 <= id < binds.len() && #[trigger] binds[id] is Some implies st.done[id] by {
        lemma_acyclic_done(st, slots, binds, ins, outs, rank, p, id);
    };
    lemma_residual_identity::<SAMPLE_RATE, M>(st, st.binds.len() as int);
}

/// The tick state an executing discovery maintains, assembled from the
/// concrete tables.
spec fn abs_tick<M>(
    slots: Seq<Option<M>>,
    ids: Seq<Option<usize>>,
    bay: BayView,
    done: Seq<bool>,
    order: Seq<Option<usize>>,
    next: int,
    log: Seq<int>,
) -> TickState<M> {
    TickState { slots, binds: as_int_opts(ids), bay, done, placed: as_int_opts(order), next, log }
}

/// A cached-order tick over the first `n` slots: each occupied slot's module
/// is processed once, in slot order, with no readiness checks.
pub open spec fn hot_pass<const SAMPLE_RATE: usize, M: Module<SAMPLE_RATE>>(
    hs: HotState<M>,
    n: int,
) -> HotState<M>
    decreases n,
{
    if n <= 0 {
        hs
    } else {
        let h1 = hot_pass::<SAMPLE_RATE, M>(hs, n - 1);
        if h1.slots[n - 1] is Some {
            let m = h1.slots[n - 1]->0;
            HotState { slots: h1.slots.update(n - 1, Some(m.state_model(h1.bay))), bay: m.bay_model(h1.bay) }
        } else {
            h1
        }
    }
}

/// Each occupied slot is processed exactly once by a cached-order tick: slot
/// `k` ends up holding exactly one application of its module's state model,
/// taken on the patchbay state left by the slots before it, and an empty
/// slot stays empty.
pub proof fn lemma_hot_pass_each_once<const SAMPLE_RATE: usize, M: Module<SAMPLE_RATE>>(
    hs: HotState<M>,
    n: int,
    k: int,
)
    requires
        0 <= k < n <= hs.slots.len(),
    ensures
        hs.slots[k] is None ==> hot_pass::<SAMPLE_RATE, M>(hs, n).slots[k] == hs.slots[k],
        hs.slots[k] is Some ==> hot_pass::<SAMPLE_RATE, M>(hs, n).slots[k] == Some(
            hs.slots[k]->0.state_model(hot_pass::<SAMPLE_RATE, M>(hs, k).bay),
        ),
    decreases n,
{
    lemma_hot_pass_shape::<SAMPLE_RATE, M>(hs, k);
    assert(hot_pass::<SAMPLE_RATE, M>(hs, k).slots[k] == hs.slots[k]);
    if k < n - 1 {
        lemma_hot_pass_each_once(hs, n - 1, k);
        lemma_hot_pass_shape::<SAMPLE_RATE, M>(hs, n - 1);
    }
}

/// In a greedy step that fires, the module is processed on precisely the
/// patchbay state its readiness report approved: the readiness model holds
/// on the very bay the module's process models are then applied to. Together
/// with the module contract — `is_ready` returns the readiness model, which
/// honest modules compute from `check` on the signals `process` reads — this
/// says the values a module reads during `process` are the ones its
/// preceding `is_ready` saw as fresh in the same tick.
pub proof fn lemma_greedy_step_on_approved_bay<const SAMPLE_RATE: usize, M: Module<SAMPLE_RATE>>(
    st: TickState<M>,
    id: int,
)
    requires
        0 <= id < st.done.len(),
        !st.done[id],
        greedy_step::<SAMPLE_RATE, M>(st, id).done[id],
    ensures
        ({
            let m = st.slots[st.binds[id]->0]->0;
            &&& st.binds[id] is Some
            &&& st.slots[st.binds[id]->0] is Some
            &&& m.ready_model(st.bay)
            &&& greedy_step::<SAMPLE_RATE, M>(st, id).bay == m.bay_model(st.bay)
            &&& greedy_step::<SAMPLE_RATE, M>(st, id).slots == st.slots.update(
                st.binds[id]->0,
                Some(m.state_model(st.bay)),
            )
        }),
{
}

/// Reinserting taken modules in the order `take_modules` returned them
/// rebuilds the state they were taken from: in a processor whose first `k`
/// slots are occupied and bound to their own ids and whose remaining slots
/// and ids are free, the first free id and the first free slot are both `k`,
/// so an insertion obeying the contract of `insert_module` extends the same
/// packed, identity-bound shape by one.
pub proof fn lemma_insert_into_packed<M>(
    slots: Seq<Option<M>>,
    binds: Seq<Option<int>>,
    k: int,
    m: M,
)
    requires
        0 <= k < slots.len(),
        binds.len() == slots.len(),
        forall|i: int| 0 <= i < k ==> #[trigger] slots[i] is Some && binds[i] == Some(i),
        forall|i: int| k <= i < slots.len() ==> #[trigger] slots[i] is None && binds[i] is None,
    ensures
        binds[k] is None,
        forall|j: int| 0 <= j < k ==> #[trigger] binds[j] is Some,
        slots[k] is None,
        forall|t: int| 0 <= t < k ==> #[trigger] slots[t] is Some,
        forall|i: int|
            0 <= i < k + 1 ==> #[trigger] slots.update(k, Some(m))[i] is Some && binds.update(
                k,
                Some(k),
            )[i] == Some(i),
        forall|i: int|
            k + 1 <= i < slots.len() ==> #[trigger] slots.update(k, Some(m))[i] is None
                && binds.update(k, Some(k))[i] is None,
{
    assert(slots[k] is None && binds[k] is None);
    assert forall|j: int| 0 <= j < k implies #[trigger] binds[j] is Some by {
        assert(slots[j] is Some);
    };
    assert forall|i: int|
        k + 1 <= i < slots.len() implies #[trigger] slots.update(k, Some(m))[i] is None
            && binds.update(k, Some(k))[i] is None by {
        assert(slots[i] is None);
    };
}

pub proof fn lemma_hot_pass_shape<const SAMPLE_RATE: usize, M: Module<SAMPLE_RATE>>(
    hs: HotState<M>,
    n: int,
)
    requires
        0 <= n <= hs.slots.len(),
    ensures
        hot_pass::<SAMPLE_RATE, M>(hs, n).slots.len() == hs.slots.len(),
        forall|s: int|
            0 <= s < hs.slots.len() ==> (#[trigger] hot_pass::<SAMPLE_RATE, M>(hs, n).slots[s]
                is Some <==> hs.slots[s] is Some),
        forall|s: int|
            n <= s < hs.slots.len() ==> #[trigger] hot_pass::<SAMPLE_RATE, M>(hs, n).slots[s]
                == hs.slots[s],
    decreases n,
{
    if n > 0 {
        lemma_hot_pass_shape(hs, n - 1);
    }
}

/// The slot indices of a bind table, widened to mathematical integers.
pub open spec fn as_int_opts(v: Seq<Option<usize>>) -> Seq<Option<int>> {
    Seq::new(
        v.len(),
        |i: int|
            match v[i] {
                Some(s) => Some(s as int),
                None => None,
            },
    )
}

/// The bind table maps external ids to distinct occupied slots, and every
/// occupied slot is reachable from some id.
pub open spec fn binds_ok<M>(slots: Seq<Option<M>>, binds: Seq<Option<int>>) -> bool {
    &&& binds.len() == slots.len()
    &&& forall|i: int|
        0 <= i < binds.len() && #[trigger] binds[i] is Some ==> 0 <= binds[i]->0 < slots.len()
            && slots[binds[i]->0] is Some
    &&& forall|i: int, j: int|
        #![trigger binds[i], binds[j]]
        0 <= i < binds.len() && 0 <= j < binds.len() && i != j && binds[i] is Some
            && binds[j] is Some ==> binds[i]->0 != binds[j]->0
    &&& forall|s: int|
        0 <= s < slots.len() && #[trigger] slots[s] is Some ==> exists|i: int|
            0 <= i < binds.len() && #[trigger] binds[i] == Some(s)
}

/// The scheduler: owns a fixed-capacity array of modules, runs each of them
/// once per sample tick, and keeps the array arranged in an execution order
/// discovered from the modules' own readiness reports.
///
/// External ids handed out on insertion stay valid across reordering: the
/// bind table maps each id to the slot its module currently occupies.
pub struct Processor<const SAMPLE_RATE: usize, const MODULES: usize, M: Module<SAMPLE_RATE>> {
    modules: Vec<Option<M>>,
    module_ids: Vec<Option<usize>>,
    order_set: bool,
}

impl<const SAMPLE_RATE: usize, const MODULES: usize, M: Module<SAMPLE_RATE>> Processor<
    SAMPLE_RATE,
    MODULES,
    M,
> {
    /// The module stored in each slot.
    pub closed spec fn slots(&self) -> Seq<Option<M>> {
        self.modules@
    }

    /// The slot each external id is bound to.
    pub closed spec fn binds(&self) -> Seq<Option<int>> {
        as_int_opts(self.module_ids@)
    }

    /// Whether the slot arrangement is a cached valid execution order.
    pub closed spec fn order_valid(&self) -> bool {
        self.order_set
    }

    /// Both tables have the declared capacity and the bind table is sound.
    pub open spec fn wf(&self) -> bool {
        &&& self.slots().len() == MODULES
        &&& self.binds().len() == MODULES
        &&& binds_ok(self.slots(), self.binds())
    }

    /// Build a processor over a prefilled slot table; each occupied slot `i`
    /// is bound to external id `i`, and no execution order is cached yet.
    pub fn new(modules: Vec<Option<M>>) -> (p: Processor<SAMPLE_RATE, MODULES, M>)
        requires
            modules@.len() == MODULES,
        ensures
            p.wf(),
            p.slots() == modules@,
            p.binds() == Seq::new(
                MODULES as nat,
                |i: int|
                    if modules@[i] is Some {
                        Some(i)
                    } else {
                        None
                    },
            ),
            !p.order_valid(),
    {
        let mut module_ids: Vec<Option<usize>> = Vec::new();
        let mut i: usize = 0;
        while i < MODULES
            invariant
                i <= MODULES,
                modules@.len() == MODULES,
                module_ids@.len() == i,
                forall|j: int|
                    0 <= j < i ==> #[trigger] module_ids@[j] == (if modules@[j] is Some {
                        Some(j as usize)
                    } else {
                        None
                    }),
            decreases MODULES - i,
        {
            if modules[i].is_some() {
                module_ids.push(Some(i));
            } else {
                module_ids.push(None);
            }
            i = i + 1;
        }
        let p = Processor { modules, module_ids, order_set: false };
        proof {
            assert(p.binds() =~= Seq::new(
                MODULES as nat,
                |i: int|
                    if p.slots()[i] is Some {
                        Some(i)
                    } else {
                        None
                    },
            ));
            assert forall|s: int| 0 <= s < p.slots().len() && #[trigger] p.slots()[s] is Some
                implies exists|i: int| 0 <= i < p.binds().len() && #[trigger] p.binds()[i] == Some(
                s,
            ) by {
                assert(p.binds()[s] == Some(s));
            };
        }
        p
    }

    /// Build a processor with every slot empty and every id unbound.
    pub fn empty() -> (p: Processor<SAMPLE_RATE, MODULES, M>)
        ensures
            p.wf(),
            p.slots() == Seq::new(MODULES as nat, |i: int| None::<M>),
            p.binds() == Seq::new(MODULES as nat, |i: int| None::<int>),
            !p.order_valid(),
    {
        let mut modules: Vec<Option<M>> = Vec::new();
        let mut module_ids: Vec<Option<usize>> = Vec::new();
        let mut i: usize = 0;
        while i < MODULES
            invariant
                i <= MODULES,
                modules@ =~= Seq::new(i as nat, |j: int| None::<M>),
                module_ids@ =~= Seq::new(i as nat, |j: int| None::<usize>),
            decreases MODULES - i,
        {
            modules.push(None);
            module_ids.push(None);
            i = i + 1;
        }
        let p = Processor { modules, module_ids, order_set: false };
        proof {
            assert(p.binds() =~= Seq::new(MODULES as nat, |i: int| None::<int>));
        }
        p
    }

    /// Move every module out, unbind every id, and invalidate the order
    /// cache; the modules come back in slot order.
    pub fn take_modules(&mut self) -> (r: Vec<Option<M>>)
        requires
            old(self).wf(),
        ensures
            final(self).wf(),
            r@ == old(self).slots(),
            final(self).slots() == Seq::new(MODULES as nat, |i: int| None::<M>),
            final(self).binds() == Seq::new(MODULES as nat, |i: int| None::<int>),
            !final(self).order_valid(),
    {
        let mut taken: Vec<Option<M>> = Vec::new();
        let mut i: usize = 0;
        while i < MODULES
            invariant
                old(self).wf(),
                i <= MODULES,
                self.modules@.len() == MODULES,
                self.module_ids@ == old(self).module_ids@,
                taken@ =~= old(self).slots().subrange(0, i as int),
                forall|j: int| 0 <= j < i ==> self.modules@[j] is None,
                forall|j: int| i <= j < MODULES ==> self.modules@[j] == old(self).modules@[j],
            decreases MODULES - i,
        {
            let m = self.modules[i].take();
            taken.push(m);
            proof {
                assert(taken@ =~= old(self).slots().subrange(0, i + 1));
            }
            i = i + 1;
        }
        let mut module_ids: Vec<Option<usize>> = Vec::new();
        let mut j: usize = 0;
        while j < MODULES
            invariant
                j <= MODULES,
                module_ids@ =~= Seq::new(j as nat, |k: int| None::<usize>),
            decreases MODULES - j,
        {
            module_ids.push(None);
            j = j + 1;
        }
        self.module_ids = module_ids;
        self.order_set = false;
        proof {
            assert(taken@ =~= old(self).slots());
            assert(self.slots() =~= Seq::new(MODULES as nat, |i: int| None::<M>));
            assert(self.binds() =~= Seq::new(MODULES as nat, |i: int| None::<int>));
        }
        taken
    }

    /// Drop the cached execution order; the next tick re-derives it.
    pub fn clear_cache(&mut self)
        requires
            old(self).wf(),
        ensures
            final(self).wf(),
            final(self).slots() == old(self).slots(),
            final(self).binds() == old(self).binds(),
            !final(self).order_valid(),
    {
        self.order_set = false;
    }

    /// Place a module in the first free slot, bind it to the first free
    /// external id, and invalidate the order cache. Returns the new id, or
    /// nothing when the id table or the slot table is exhausted.
    pub fn insert_module(&mut self, module: M) -> (r: Option<usize>)
        requires
            old(self).wf(),
        ensures
            final(self).wf(),
            r is Some <==> ((exists|j: int| 0 <= j < MODULES && old(self).binds()[j] is None)
                && (exists|t: int| 0 <= t < MODULES && old(self).slots()[t] is None)),
            match r {
                Some(id) => {
                    let s = final(self).binds()[id as int]->0;
                    &&& 0 <= id < MODULES
                    &&& old(self).binds()[id as int] is None
                    &&& forall|j: int| 0 <= j < id ==> old(self).binds()[j] is Some
                    &&& final(self).binds()[id as int] is Some
                    &&& old(self).slots()[s] is None
                    &&& forall|t: int| 0 <= t < s ==> old(self).slots()[t] is Some
                    &&& final(self).slots() == old(self).slots().update(s, Some(module))
                    &&& final(self).binds() == old(self).binds().update(id as int, Some(s))
                    &&& !final(self).order_valid()
                },
                None => {
                    &&& final(self).slots() == old(self).slots()
                    &&& final(self).binds() == old(self).binds()
                    &&& final(self).order_valid() == old(self).order_valid()
                },
            },
    {
        let mut i: usize = 0;
        while i < MODULES
            invariant
                old(self).wf(),
                i <= MODULES,
                *self == *old(self),
                forall|j: int| 0 <= j < i ==> old(self).binds()[j] is Some,
            decreases MODULES - i,
        {
            if self.module_ids[i].is_none() {
                let mut s: usize = 0;
                while s < MODULES
                    invariant
                        old(self).wf(),
                        i < MODULES,
                        s <= MODULES,
                        *self == *old(self),
                        old(self).binds()[i as int] is None,
                        forall|j: int| 0 <= j < i ==> old(self).binds()[j] is Some,
                        forall|t: int| 0 <= t < s ==> old(self).slots()[t] is Some,
                    decreases MODULES - s,
                {
                    if self.modules[s].is_none() {
                        self.modules[s] = Some(module);
                        self.module_ids[i] = Some(s);
                        self.order_set = false;
                        proof {
                            assert(self.slots() =~= old(self).slots().update(
                                s as int,
                                Some(module),
                            ));
                            assert(self.binds() =~= old(self).binds().update(
                                i as int,
                                Some(s as int),
                            ));
                            assert forall|s2: int|
                                0 <= s2 < self.slots().len() && #[trigger] self.slots()[s2]
                                    is Some implies exists|j: int|
                                0 <= j < self.binds().len() && #[trigger] self.binds()[j] == Some(
                                s2,
                            ) by {
                                if s2 == s as int {
                                    assert(self.binds()[i as int] == Some(s2));
                                } else {
                                    let j = choose|j: int|
                                        0 <= j < old(self).binds().len() && #[trigger] old(
                                            self,
                                        ).binds()[j] == Some(s2);
                                    assert(self.binds()[j] == Some(s2));
                                }
                            };
                        }
                        return Some(i);
                    }
                    s = s + 1;
                }
                return None;
            }
            i = i + 1;
        }
        None
    }

    /// Overwrite the module an external id is bound to, or, if the id is
    /// unbound, place the module in the first free slot and bind the id to
    /// it. Either way the order cache is invalidated. When the id is unbound
    /// and every slot is occupied, the module set is left unchanged.
    pub fn replace_module(&mut self, module: M, index: usize)
        requires
            old(self).wf(),
            index < MODULES,
        ensures
            final(self).wf(),
            !final(self).order_valid(),
            match old(self).binds()[index as int] {
                Some(s) => final(self).slots() == old(self).slots().update(s, Some(module))
                    && final(self).binds() == old(self).binds(),
                None => {
                    ||| {
                        let s = final(self).binds()[index as int]->0;
                        &&& final(self).binds()[index as int] is Some
                        &&& old(self).slots()[s] is None
                        &&& forall|t: int| 0 <= t < s ==> old(self).slots()[t] is Some
                        &&& final(self).slots() == old(self).slots().update(s, Some(module))
                        &&& final(self).binds() == old(self).binds().update(index as int, Some(s))
                    }
                    ||| {
                        &&& forall|t: int| 0 <= t < MODULES ==> old(self).slots()[t] is Some
                        &&& final(self).slots() == old(self).slots()
                        &&& final(self).binds() == old(self).binds()
                    }
                },
            },
    {
        self.order_set = false;
        match self.module_ids[index] {
            Some(i) => {
                self.modules[i] = Some(module);
                proof {
                    assert(self.slots() =~= old(self).slots().update(i as int, Some(module)));
                    assert(self.binds() =~= old(self).binds());
                    assert forall|s2: int|
                        0 <= s2 < self.slots().len() && #[trigger] self.slots()[s2]
                            is Some implies exists|j: int|
                        0 <= j < self.binds().len() && #[trigger] self.binds()[j] == Some(s2) by {
                        let j = choose|j: int|
                            0 <= j < old(self).binds().len() && #[trigger] old(self).binds()[j]
                                == Some(s2);
                        assert(self.binds()[j] == Some(s2));
                    };
                }
            },
            None => {
                let mut s: usize = 0;
                while s < MODULES
                    invariant
                        old(self).wf(),
                        index < MODULES,
                        s <= MODULES,
                        self.modules@ == old(self).modules@,
                        self.module_ids@ == old(self).module_ids@,
                        !self.order_set,
                        old(self).binds()[index as int] is None,
                        forall|t: int| 0 <= t < s ==> old(self).slots()[t] is Some,
                    decreases MODULES - s,
                {
                    if self.modules[s].is_none() {
                        self.modules[s] = Some(module);
                        self.module_ids[index] = Some(s);
                        proof {
                            assert(self.slots() =~= old(self).slots().update(
                                s as int,
                                Some(module),
                            ));
                            assert(self.binds() =~= old(self).binds().update(
                                index as int,
                                Some(s as int),
                            ));
                            assert forall|s2: int|
                                0 <= s2 < self.slots().len() && #[trigger] self.slots()[s2]
                                    is Some implies exists|j: int|
                                0 <= j < self.binds().len() && #[trigger] self.binds()[j] == Some(
                                s2,
                            ) by {
                                if s2 == s as int {
                                    assert(self.binds()[index as int] == Some(s2));
                                } else {
                                    let j = choose|j: int|
                                        0 <= j < old(self).binds().len() && #[trigger] old(
                                            self,
                                        ).binds()[j] == Some(s2);
                                    assert(self.binds()[j] == Some(s2));
                                }
                            };
                        }
                        return ;
                    }
                    s = s + 1;
                }
            },
        }
    }

    /// Exclusive access to the module bound to an external id, if any. The
    /// caller's writes through the returned reference land in the module's
    /// slot; the bindings and the order cache are untouched.
    pub fn get_module_mut(&mut self, index: usize) -> (r: Option<&mut M>)
        requires
            old(self).wf(),
            index < MODULES,
        ensures
            r is Some <==> old(self).binds()[index as int] is Some,
            r is None ==> *final(self) == *old(self),
            r is Some ==> {
                let s = old(self).binds()[index as int]->0;
                &&& *r.unwrap() == old(self).slots()[s]->0
                &&& final(self).slots() == old(self).slots().update(s, Some(*final(r.unwrap())))
                &&& final(self).binds() == old(self).binds()
                &&& final(self).order_valid() == old(self).order_valid()
                &&& final(self).wf()
            },
    {
        match self.module_ids[index] {
            Some(i) => self.modules[i].as_mut(),
            None => None,
        }
    }

    /// Advance every module one sample. With a valid cached order this is the
    /// hot path: clear the freshness marks, then run the modules in slot
    /// order. Otherwise one discovery tick runs: greedy passes process every
    /// module whose readiness report comes true, a residual pass processes
    /// the modules caught in feedback cycles against stale values, and the
    /// slot table is rearranged into the discovered order, which is then
    /// cached. Either way every stored module is processed exactly once.
    pub fn process_modules<const P: usize>(&mut self, patchbay: &mut Patchbay<P>)
        requires
            old(self).wf(),
            old(patchbay).wf(),
        ensures
            final(self).wf(),
            final(patchbay).wf(),
            final(self).order_valid(),
            old(self).order_valid() ==> {
                let h = hot_pass::<SAMPLE_RATE, M>(
                    HotState { slots: old(self).slots(), bay: old(patchbay)@.cleared() },
                    MODULES as int,
                );
                &&& final(self).slots() == h.slots
                &&& final(self).binds() == old(self).binds()
                &&& final(patchbay)@ == h.bay
            },
            !old(self).order_valid() ==> {
                let st = discovery::<SAMPLE_RATE, M>(
                    old(self).slots(),
                    old(self).binds(),
                    old(patchbay)@,
                );
                let cs = discovery_comp::<SAMPLE_RATE, M>(
                    old(self).slots(),
                    old(self).binds(),
                    old(patchbay)@,
                );
                &&& final(self).slots() == cs.cache
                &&& final(self).binds() == cs.binds
                &&& final(patchbay)@ == st.bay
                &&& forall|id: int|
                    0 <= id < MODULES ==> (#[trigger] st.placed[id] is Some <==> old(
                        self,
                    ).binds()[id] is Some)
                &&& forall|i1: int, i2: int|
                    #![trigger st.placed[i1], st.placed[i2]]
                    0 <= i1 < MODULES && 0 <= i2 < MODULES && i1 != i2 && st.placed[i1] is Some
                        && st.placed[i2] is Some ==> st.placed[i1]->0 != st.placed[i2]->0
                &&& forall|id: int|
                    0 <= id < MODULES && #[trigger] old(self).binds()[id] is Some ==> 0
                        <= st.placed[id]->0 < MODULES && cs.cache[st.placed[id]->0]
                        == st.slots[old(self).binds()[id]->0]
            },
    {
        if !self.order_set {
            self.order_and_process_modules(patchbay);
        } else {
            patchbay.clear_marks();
            let ghost hs0 = HotState::<M> { slots: self.slots(), bay: patchbay@ };
            let mut k: usize = 0;
            while k < MODULES
                invariant
                    old(self).wf(),
                    old(patchbay).wf(),
                    k <= MODULES,
                    patchbay.wf(),
                    self.order_set,
                    self.modules@.len() == MODULES,
                    self.module_ids@ == old(self).module_ids@,
                    hs0 == (HotState::<M> {
                        slots: old(self).slots(),
                        bay: old(patchbay)@.cleared(),
                    }),
                    self.slots() == hot_pass::<SAMPLE_RATE, M>(hs0, k as int).slots,
                    patchbay@ == hot_pass::<SAMPLE_RATE, M>(hs0, k as int).bay,
                decreases MODULES - k,
            {
                match &mut self.modules[k] {
                    Some(m) => m.process(patchbay),
                    None => {},
                }
                proof {
                    assert(self.slots() =~= hot_pass::<SAMPLE_RATE, M>(hs0, k + 1).slots);
                }
                k = k + 1;
            }
            proof {
                lemma_hot_pass_shape::<SAMPLE_RATE, M>(hs0, MODULES as int);
                assert forall|s2: int|
                    0 <= s2 < self.slots().len() && #[trigger] self.slots()[s2]
                        is Some implies exists|j: int|
                    0 <= j < self.binds().len() && #[trigger] self.binds()[j] == Some(s2) by {
                    let j = choose|j: int|
                        0 <= j < old(self).binds().len() && #[trigger] old(self).binds()[j]
                            == Some(s2);
                    assert(self.binds()[j] == Some(s2));
                };
            }
        }
    }

    /// One discovery tick: process every module while deriving a fresh
    /// execution order from readiness observations, then rearrange the slot
    /// table into that order and mark the cache valid.
    fn order_and_process_modules<const P: usize>(&mut self, patchbay: &mut Patchbay<P>)
        requires
            old(self).wf(),
            old(patchbay).wf(),
        ensures
            final(self).wf(),
            final(patchbay).wf(),
            final(self).order_valid(),
            ({
                let st = discovery::<SAMPLE_RATE, M>(
                    old(self).slots(),
                    old(self).binds(),
                    old(patchbay)@,
                );
                let cs = discovery_comp::<SAMPLE_RATE, M>(
                    old(self).slots(),
                    old(self).binds(),
                    old(patchbay)@,
                );
                &&& final(self).slots() == cs.cache
                &&& final(self).binds() == cs.binds
                &&& final(patchbay)@ == st.bay
                &&& forall|id: int|
                    0 <= id < MODULES ==> (#[trigger] st.placed[id] is Some <==> old(
                        self,
                    ).binds()[id] is Some)
                &&& forall|i1: int, i2: int|
                    #![trigger st.placed[i1], st.placed[i2]]
                    0 <= i1 < MODULES && 0 <= i2 < MODULES && i1 != i2 && st.placed[i1] is Some
                        && st.placed[i2] is Some ==> st.placed[i1]->0 != st.placed[i2]->0
                &&& forall|id: int|
                    0 <= id < MODULES && #[trigger] old(self).binds()[id] is Some ==> 0
                        <= st.placed[id]->0 < MODULES && cs.cache[st.placed[id]->0]
                        == st.slots[old(self).binds()[id]->0]
            }),
    {
        patchbay.clear_marks();
        let ghost st0 = tick_start::<SAMPLE_RATE, M>(
            old(self).slots(),
            old(self).binds(),
            old(patchbay)@,
        );
        let mut processed: Vec<bool> = Vec::new();
        let mut new_order: Vec<Option<usize>> = Vec::new();
        let mut filling: usize = 0;
        while filling < MODULES
            invariant
                filling <= MODULES,
                processed@ =~= Seq::new(filling as nat, |j: int| false),
                new_order@ =~= Seq::new(filling as nat, |j: int| None::<usize>),
            decreases MODULES - filling,
        {
            processed.push(false);
            new_order.push(None);
            filling = filling + 1;
        }
        let mut new_index: usize = 0;
        let ghost mut g_log: Seq<int> = Seq::empty();
        proof {
            assert(abs_tick(
                self.modules@,
                self.module_ids@,
                patchbay@,
                processed@,
                new_order@,
                new_index as int,
                g_log,
            ) =~~= st0);
            lemma_count_opts_none(new_order@, MODULES as int);
        }
        let mut progress: bool = true;
        while progress
            invariant
                old(self).wf(),
                old(patchbay).wf(),
                patchbay.wf(),
                self.modules@.len() == MODULES,
                self.module_ids@ == old(self).module_ids@,
                processed@.len() == MODULES,
                new_order@.len() == MODULES,
                new_index <= MODULES,
                new_index == count_opts(new_order@, MODULES as int),
                st0 == tick_start::<SAMPLE_RATE, M>(
                    old(self).slots(),
                    old(self).binds(),
                    old(patchbay)@,
                ),
                progress ==> greedy_rounds::<SAMPLE_RATE, M>(
                    abs_tick(
                        self.modules@,
                        self.module_ids@,
                        patchbay@,
                        processed@,
                        new_order@,
                        new_index as int,
                        g_log,
                    ),
                ) == greedy_rounds::<SAMPLE_RATE, M>(st0),
                forall|s: int|
                    0 <= s < MODULES ==> (#[trigger] self.modules@[s] is Some <==> old(
                        self,
                    ).slots()[s] is Some),
                forall|id: int|
                    0 <= id < MODULES && #[trigger] processed@[id] ==> old(self).binds()[id]
                        is Some,
                forall|id: int|
                    0 <= id < MODULES ==> (#[trigger] new_order@[id] is Some <==> processed@[id]),
                forall|id: int|
                    0 <= id < MODULES && #[trigger] new_order@[id] is Some ==> new_order@[id]->0
                        < new_index,
                forall|i1: int, i2: int|
                    #![trigger new_order@[i1], new_order@[i2]]
                    0 <= i1 < MODULES && 0 <= i2 < MODULES && i1 != i2 && new_order@[i1] is Some
                        && new_order@[i2] is Some ==> new_order@[i1]->0 != new_order@[i2]->0,
                !progress ==> abs_tick(
                    self.modules@,
                    self.module_ids@,
                    patchbay@,
                    processed@,
                    new_order@,
                    new_index as int,
                    g_log,
                ) == greedy_rounds::<SAMPLE_RATE, M>(st0),
            decreases MODULES - count_opts(new_order@, MODULES as int), (if progress {
                1int
            } else {
                0int
            }),
        {
            let ghost st_round = abs_tick(
                self.modules@,
                self.module_ids@,
                patchbay@,
                processed@,
                new_order@,
                new_index as int,
                g_log,
            );
            let ghost ni0 = new_index as int;
            let mut updated: usize = 0;
            let mut index: usize = 0;
            while index < MODULES
                invariant
                    old(self).wf(),
                    old(patchbay).wf(),
                    patchbay.wf(),
                    index <= MODULES,
                    self.modules@.len() == MODULES,
                    self.module_ids@ == old(self).module_ids@,
                    processed@.len() == MODULES,
                    new_order@.len() == MODULES,
                    new_index <= MODULES,
                    0 <= ni0,
                    new_index == ni0 + updated,
                    new_index == count_opts(new_order@, MODULES as int),
                    st_round.done.len() == MODULES,
                    updated == count_done(processed@, MODULES as int) - count_done(
                        st_round.done,
                        MODULES as int,
                    ),
                    abs_tick(
                        self.modules@,
                        self.module_ids@,
                        patchbay@,
                        processed@,
                        new_order@,
                        new_index as int,
                        g_log,
                    ) == greedy_pass::<SAMPLE_RATE, M>(st_round, index as int),
                    greedy_rounds::<SAMPLE_RATE, M>(st_round) == greedy_rounds::<SAMPLE_RATE, M>(
                        st0,
                    ),
                    st0 == tick_start::<SAMPLE_RATE, M>(
                        old(self).slots(),
                        old(self).binds(),
                        old(patchbay)@,
                    ),
                    forall|s: int|
                        0 <= s < MODULES ==> (#[trigger] self.modules@[s] is Some <==> old(
                            self,
                        ).slots()[s] is Some),
                    forall|id: int|
                        0 <= id < MODULES && #[trigger] processed@[id] ==> old(self).binds()[id]
                            is Some,
                    forall|id: int|
                        0 <= id < MODULES ==> (#[trigger] new_order@[id] is Some
                            <==> processed@[id]),
                    forall|id: int|
                        0 <= id < MODULES && #[trigger] new_order@[id] is Some ==> new_order@[id]->0
                            < new_index,
                    forall|i1: int, i2: int|
                        #![trigger new_order@[i1], new_order@[i2]]
                        0 <= i1 < MODULES && 0 <= i2 < MODULES && i1 != i2 && new_order@[i1] is Some
                            && new_order@[i2] is Some ==> new_order@[i1]->0 != new_order@[i2]->0,
                decreases MODULES - index,
            {
                let ghost st_mid = greedy_pass::<SAMPLE_RATE, M>(st_round, index as int);
                if !processed[index] {
                    match self.module_ids[index] {
                        Some(slot) => {
                            proof {
                                assert(old(self).binds()[index as int] == Some(slot as int));
                                assert(old(self).slots()[slot as int] is Some);
                                assert(self.modules@[slot as int] is Some);
                            }
                            let ready = match &self.modules[slot] {
                                Some(m) => m.is_ready(patchbay),
                                None => false,
                            };
                            if ready {
                                let ghost pre_done = processed@;
                                let ghost pre_order = new_order@;
                                match &mut self.modules[slot] {
                                    Some(m) => m.process(patchbay),
                                    None => {},
                                }
                                processed[index] = true;
                                new_order[index] = Some(new_index);
                                proof {
                                    lemma_count_done_update(pre_done, MODULES as int, index as int);
                                    lemma_count_opts_update(
                                        pre_order,
                                        MODULES as int,
                                        index as int,
                                        new_index,
                                    );
                                    lemma_count_opts_bounds(new_order@, MODULES as int);
                                }
                                new_index = new_index + 1;
                                updated = updated + 1;
                                proof {
                                    g_log = g_log.push(index as int);
                                    assert(as_int_opts(new_order@) =~= st_mid.placed.update(
                                        index as int,
                                        Some(new_index - 1),
                                    ));
                                    assert(abs_tick(
                                        self.modules@,
                                        self.module_ids@,
                                        patchbay@,
                                        processed@,
                                        new_order@,
                                        new_index as int,
                                        g_log,
                                    ) =~~= greedy_step::<SAMPLE_RATE, M>(st_mid, index as int));
                                }
                            } else {
                                proof {
                                    assert(greedy_step::<SAMPLE_RATE, M>(st_mid, index as int)
                                        == st_mid);
                                }
                            }
                        },
                        None => {},
                    }
                }
                index = index + 1;
            }
            progress = updated > 0;
            proof {
                let cur = abs_tick(
                    self.modules@,
                    self.module_ids@,
                    patchbay@,
                    processed@,
                    new_order@,
                    new_index as int,
                    g_log,
                );
                assert(cur == greedy_pass::<SAMPLE_RATE, M>(st_round, MODULES as int));
                assert(st_round.binds.len() == MODULES);
                if updated == 0 {
                    assert(greedy_rounds::<SAMPLE_RATE, M>(st_round) == cur);
                } else {
                    assert(count_done(cur.done, MODULES as int) > count_done(
                        st_round.done,
                        MODULES as int,
                    ));
                    assert(greedy_rounds::<SAMPLE_RATE, M>(st_round)
                        == greedy_rounds::<SAMPLE_RATE, M>(cur));
                }
            }
        }
        let ghost st_g = abs_tick(
            self.modules@,
            self.module_ids@,
            patchbay@,
            processed@,
            new_order@,
            new_index as int,
            g_log,
        );
        let mut rid: usize = 0;
        while rid < MODULES
            invariant
                old(self).wf(),
                old(patchbay).wf(),
                patchbay.wf(),
                rid <= MODULES,
                self.modules@.len() == MODULES,
                self.module_ids@ == old(self).module_ids@,
                processed@.len() == MODULES,
                new_order@.len() == MODULES,
                new_index <= MODULES,
                new_index == count_opts(new_order@, MODULES as int),
                st_g == greedy_rounds::<SAMPLE_RATE, M>(st0),
                st0 == tick_start::<SAMPLE_RATE, M>(
                    old(self).slots(),
                    old(self).binds(),
                    old(patchbay)@,
                ),
                st_g.done == processed@,
                abs_tick(
                    self.modules@,
                    self.module_ids@,
                    patchbay@,
                    processed@,
                    new_order@,
                    new_index as int,
                    g_log,
                ) == residual_pass::<SAMPLE_RATE, M>(st_g, rid as int),
                forall|s: int|
                    0 <= s < MODULES ==> (#[trigger] self.modules@[s] is Some <==> old(
                        self,
                    ).slots()[s] is Some),
                forall|id: int|
                    0 <= id < MODULES && #[trigger] processed@[id] ==> old(self).binds()[id]
                        is Some,
                forall|id: int|
                    0 <= id < MODULES ==> (#[trigger] new_order@[id] is Some <==> (processed@[id]
                        || (0 <= id < rid && old(self).binds()[id] is Some))),
                forall|id: int|
                    0 <= id < MODULES && #[trigger] new_order@[id] is Some ==> new_order@[id]->0
                        < new_index,
                forall|i1: int, i2: int|
                    #![trigger new_order@[i1], new_order@[i2]]
                    0 <= i1 < MODULES && 0 <= i2 < MODULES && i1 != i2 && new_order@[i1] is Some
                        && new_order@[i2] is Some ==> new_order@[i1]->0 != new_order@[i2]->0,
            decreases MODULES - rid,
        {
            let ghost st_mid = residual_pass::<SAMPLE_RATE, M>(st_g, rid as int);
            if !processed[rid] {
                match self.module_ids[rid] {
                    Some(slot) => {
                        proof {
                            assert(old(self).binds()[rid as int] == Some(slot as int));
                            assert(old(self).slots()[slot as int] is Some);
                            assert(self.modules@[slot as int] is Some);
                        }
                        let ghost pre_order = new_order@;
                        match &mut self.modules[slot] {
                            Some(m) => m.process(patchbay),
                            None => {},
                        }
                        new_order[rid] = Some(new_index);
                        proof {
                            lemma_count_opts_update(pre_order, MODULES as int, rid as int, new_index);
                            lemma_count_opts_bounds(new_order@, MODULES as int);
                        }
                        new_index = new_index + 1;
                        proof {
                            g_log = g_log.push(rid as int);
                            assert(as_int_opts(new_order@) =~= st_mid.placed.update(
                                rid as int,
                                Some(new_index - 1),
                            ));
                            assert(abs_tick(
                                self.modules@,
                                self.module_ids@,
                                patchbay@,
                                processed@,
                                new_order@,
                                new_index as int,
                                g_log,
                            ) =~~= residual_step::<SAMPLE_RATE, M>(st_mid, rid as int));
                        }
                    },
                    None => {},
                }
            }
            rid = rid + 1;
        }
        let ghost stf = abs_tick(
            self.modules@,
            self.module_ids@,
            patchbay@,
            processed@,
            new_order@,
            new_index as int,
            g_log,
        );
        proof {
            assert(stf == discovery::<SAMPLE_RATE, M>(
                old(self).slots(),
                old(self).binds(),
                old(patchbay)@,
            ));
            assert(stf.placed == as_int_opts(new_order@));
            assert(stf.slots == self.modules@);
        }
        let ghost cs0 = CompState::<M> {
            cache: Seq::new(MODULES as nat, |i: int| None::<M>),
            slots: stf.slots,
            binds: old(self).binds(),
        };
        let mut cache: Vec<Option<M>> = Vec::new();
        let mut filled: usize = 0;
        while filled < MODULES
            invariant
                filled <= MODULES,
                cache@ =~= Seq::new(filled as nat, |j: int| None::<M>),
            decreases MODULES - filled,
        {
            cache.push(None);
            filled = filled + 1;
        }
        let mut cid: usize = 0;
        while cid < MODULES
            invariant
                old(self).wf(),
                old(patchbay).wf(),
                patchbay.wf(),
                cid <= MODULES,
                self.modules@.len() == MODULES,
                self.module_ids@.len() == MODULES,
                cache@.len() == MODULES,
                new_order@.len() == MODULES,
                new_index <= MODULES,
                patchbay@ == stf.bay,
                stf == discovery::<SAMPLE_RATE, M>(
                    old(self).slots(),
                    old(self).binds(),
                    old(patchbay)@,
                ),
                stf.placed == as_int_opts(new_order@),
                stf.slots.len() == MODULES,
                stf.placed.len() == MODULES,
                cs0 == (CompState::<M> {
                    cache: Seq::new(MODULES as nat, |i: int| None::<M>),
                    slots: stf.slots,
                    binds: old(self).binds(),
                }),
                (CompState::<M> {
                    cache: cache@,
                    slots: self.modules@,
                    binds: as_int_opts(self.module_ids@),
                }) == comp_pass(cs0, stf.placed, cid as int),
                forall|s: int|
                    0 <= s < MODULES ==> (#[trigger] stf.slots[s] is Some <==> old(
                        self,
                    ).slots()[s] is Some),
                forall|id: int|
                    0 <= id < MODULES ==> (#[trigger] stf.placed[id] is Some <==> old(
                        self,
                    ).binds()[id] is Some),
                forall|id: int|
                    0 <= id < MODULES && #[trigger] stf.placed[id] is Some ==> 0 <= stf.placed[id]->0
                        < MODULES,
                forall|i1: int, i2: int|
                    #![trigger stf.placed[i1], stf.placed[i2]]
                    0 <= i1 < MODULES && 0 <= i2 < MODULES && i1 != i2 && stf.placed[i1] is Some
                        && stf.placed[i2] is Some ==> stf.placed[i1]->0 != stf.placed[i2]->0,
                forall|id: int|
                    cid <= id < MODULES ==> #[trigger] self.module_ids@[id] == old(
                        self,
                    ).module_ids@[id],
                forall|id: int|
                    cid <= id < MODULES && old(self).binds()[id] is Some
                        ==> #[trigger] self.modules@[old(self).binds()[id]->0] == stf.slots[old(
                        self,
                    ).binds()[id]->0],
                forall|id: int|
                    0 <= id < cid ==> #[trigger] as_int_opts(self.module_ids@)[id] == (if old(
                        self,
                    ).binds()[id] is Some {
                        Some(stf.placed[id]->0)
                    } else {
                        None
                    }),
                forall|id: int|
                    0 <= id < cid && old(self).binds()[id] is Some
                        ==> #[trigger] cache@[stf.placed[id]->0] == stf.slots[old(
                        self,
                    ).binds()[id]->0],
                forall|p: int|
                    0 <= p < MODULES && #[trigger] cache@[p] is Some ==> exists|id: int|
                        0 <= id < cid && old(self).binds()[id] is Some && #[trigger] stf.placed[id]->0
                            == p,
            decreases MODULES - cid,
        {
            let ghost cs_mid = comp_pass(cs0, stf.placed, cid as int);
            match self.module_ids[cid] {
                Some(old_slot) => {
                    proof {
                        assert(old(self).binds()[cid as int] == Some(old_slot as int));
                        assert(stf.placed[cid as int] is Some);
                        assert(as_int_opts(new_order@)[cid as int] is Some);
                        assert(new_order@[cid as int] is Some);
                    }
                    let new_slot = match new_order[cid] {
                        Some(p) => p,
                        None => old_slot,
                    };
                    proof {
                        assert(new_slot as int == stf.placed[cid as int]->0);
                        assert(0 <= new_slot < MODULES);
                    }
                    let m = self.modules[old_slot].take();
                    cache[new_slot] = m;
                    self.module_ids[cid] = Some(new_slot);
                    proof {
                        assert(as_int_opts(self.module_ids@) =~= cs_mid.binds.update(
                            cid as int,
                            Some(new_slot as int),
                        ));
                        assert((CompState::<M> {
                            cache: cache@,
                            slots: self.modules@,
                            binds: as_int_opts(self.module_ids@),
                        }) =~~= comp_step(cs_mid, stf.placed, cid as int));
                    }
                },
                None => {
                    proof {
                        assert(as_int_opts(self.module_ids@)[cid as int] is None);
                        assert(comp_step(cs_mid, stf.placed, cid as int) == cs_mid);
                    }
                },
            }
            cid = cid + 1;
        }
        self.modules = cache;
        self.order_set = true;
        proof {
            let cs_fin = comp_pass(cs0, stf.placed, MODULES as int);
            assert(self.slots() == cs_fin.cache);
            assert(self.binds() == cs_fin.binds);
            assert(cs0 =~~= (CompState::<M> {
                cache: Seq::new(stf.slots.len(), |i: int| None::<M>),
                slots: stf.slots,
                binds: stf.binds,
            }));
            assert(stf.binds.len() == MODULES);
            assert(cs_fin == discovery_comp::<SAMPLE_RATE, M>(
                old(self).slots(),
                old(self).binds(),
                old(patchbay)@,
            ));
            assert forall|s2: int|
                0 <= s2 < self.slots().len() && #[trigger] self.slots()[s2]
                    is Some implies exists|j: int|
                0 <= j < self.binds().len() && #[trigger] self.binds()[j] == Some(s2) by {
                let id = choose|id: int|
                    0 <= id < MODULES && old(self).binds()[id] is Some
                        && #[trigger] stf.placed[id]->0 == s2;
                assert(self.binds()[id] == Some(s2));
            };
            assert(self.wf());
        }
    }

    /// Read access to the module bound to an external id, if any.
    pub fn get_module(&self, index: usize) -> (r: Option<&M>)
        requires
            self.wf(),
            index < MODULES,
        ensures
            r is Some <==> self.binds()[index as int] is Some,
            r is Some ==> Some(*r->0) == self.slots()[self.binds()[index as int]->0],
    {
        match self.module_ids[index] {
            Some(i) => self.modules[i].as_ref(),
            None => None,
        }
    }
}

} // verus!
