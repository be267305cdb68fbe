use vstd::prelude::*;
use std::collections::VecDeque;
use vstd::arithmetic::mul::{lemma_mul_nonnegative, lemma_mul_strictly_positive};
use crate::wheel_math::{is_power_of_two, is_wheel_size_for, due_tick, lemma_double_power_of_two, lemma_power_of_two_bound, lemma_top_u128_power_of_two, lemma_wheel_size_512, lemma_mask_is_mod, lemma_placement_due, lemma_advance_due};

verus! {

/// Above this many timers a warning is printed once.
pub const INSTANCE_COUNT_LIMIT: usize = 64;

/// Nanoseconds in a millisecond.
pub const MILLISECOND_NANOS: u64 = 1000000;

/// At most this many queued timeouts are moved into the wheel per tick, so that a
/// producer adding timeouts in a loop cannot stall the worker.
pub const MAX_TRANSFER_PER_TICK: usize = 100000;

/// Life cycle of the worker that turns the wheel.
#[derive(PartialEq, Eq, Structural, Clone, Copy, Debug)]
pub enum WorkerState {
    INIT,
    STARTED,
    SHUTDOWN,
}

/// Life cycle of a single timeout.
#[derive(PartialEq, Eq, Structural, Clone, Copy, Debug)]
pub enum TimeoutState {
    INIT,
    CANCELED,
    EXPIRED,
}

/// Whether creating a timer warns about too many timers, given the number `count` of
/// timers created before it and whether the warning was given already: the warning is
/// given once, by the first timer created when more than `INSTANCE_COUNT_LIMIT` already
/// exist. Returns whether to warn now and whether the warning has been given afterwards.
pub fn instance_warning(count: usize, warned: bool) -> (r: (bool, bool))
    ensures
        r.0 == (count > INSTANCE_COUNT_LIMIT && !warned),
        r.1 == (warned || count > INSTANCE_COUNT_LIMIT),
{
    if count > INSTANCE_COUNT_LIMIT {
        (!warned, true)
    } else {
        (false, warned)
    }
}

/// What the worker does next while waiting for the next tick.
#[derive(PartialEq, Eq, Structural, Clone, Copy, Debug)]
pub enum TickWait {
    /// The worker is not started: stop turning the wheel.
    Stop,
    /// Sleep this many milliseconds, then look again.
    Sleep(u128),
    /// The tick has come; the time elapsed since the start, in milliseconds.
    Ready(u128),
}

/// Why a timer operation was refused.
#[derive(PartialEq, Eq, Structural, Clone, Copy, Debug)]
pub enum TimerError {
    /// The system clock reads earlier than the Unix epoch.
    ClockBeforeEpoch,
    /// The current time plus the delay lies before the start of the timer (the clock
    /// went back).
    DeadlineBeforeStart,
}

/// A task waiting for its deadline, measured in milliseconds since the timer started.
pub struct HashedWheelTimeout<F> {
    task: F,
    deadline: u128,
    state: TimeoutState,
    /// Full turns of the wheel still to wait once the timeout sits in its slot;
    /// set when the timeout is moved from the queue into the wheel.
    remainingRounds: u128,
}

impl<F> HashedWheelTimeout<F> {
    pub closed spec fn spec_task(&self) -> F {
        self.task
    }

    pub closed spec fn spec_deadline(&self) -> u128 {
        self.deadline
    }

    pub closed spec fn spec_state(&self) -> TimeoutState {
        self.state
    }

    pub closed spec fn spec_rounds(&self) -> u128 {
        self.remainingRounds
    }

    /// The same timeout with its remaining rounds replaced.
    pub closed spec fn with_rounds(self, rounds: u128) -> Self {
        HashedWheelTimeout { remainingRounds: rounds, ..self }
    }

    /// Replacing the rounds keeps the task, the deadline and the state.
    pub proof fn lemma_with_rounds(self, rounds: u128)
        ensures
            self.with_rounds(rounds).spec_task() == self.spec_task(),
            self.with_rounds(rounds).spec_deadline() == self.spec_deadline(),
            self.with_rounds(rounds).spec_state() == self.spec_state(),
            self.with_rounds(rounds).spec_rounds() == rounds,
    {
    }

    /// A fresh timeout for `task`, due at `deadline`.
    pub fn new(task: F, deadline: u128) -> (t: Self)
        ensures
            t.spec_task() == task,
            t.spec_deadline() == deadline,
            t.spec_state() == TimeoutState::INIT,
            t.spec_rounds() == 0,
    {
        Self { state: TimeoutState::INIT, task: task, deadline, remainingRounds: 0 }
    }

    pub fn deadline(&self) -> (d: u128)
        ensures
            d == self.spec_deadline(),
    {
        self.deadline
    }

    pub fn remaining_rounds(&self) -> (r: u128)
        ensures
            r == self.spec_rounds(),
    {
        self.remainingRounds
    }

    pub fn state(&self) -> (s: TimeoutState)
        ensures
            s == self.spec_state(),
    {
        self.state
    }

    pub fn task(&self) -> (t: &F)
        ensures
            *t == self.spec_task(),
    {
        &self.task
    }

    /// Gives up the timeout and hands back its task, to be run.
    pub fn into_task(self) -> (t: F)
        ensures
            t == self.spec_task(),
    {
        self.task
    }
}

/// The timeouts of `s` whose rounds are used up, in order.
pub open spec fn expired_part<F>(s: Seq<HashedWheelTimeout<F>>) -> Seq<HashedWheelTimeout<F>>
    decreases s.len(),
{
    if s.len() == 0 {
        Seq::empty()
    } else {
        let r = expired_part(s.drop_last());
        if s.last().spec_rounds() == 0 {
            r.push(s.last())
        } else {
            r
        }
    }
}

/// The timeouts of `s` that still have rounds to wait, in order, each with one
/// round counted down.
pub open spec fn remaining_part<F>(s: Seq<HashedWheelTimeout<F>>) -> Seq<HashedWheelTimeout<F>>
    decreases s.len(),
{
    if s.len() == 0 {
        Seq::empty()
    } else {
        let r = remaining_part(s.drop_last());
        let last = s.last();
        if last.spec_rounds() == 0 {
            r
        } else {
            r.push(last.with_rounds((last.spec_rounds() - 1) as u128))
        }
    }
}

/// One slot of the wheel: the timeouts that hash to it, in arrival order.
pub struct HashedWheelBucket<F> {
    inner: Vec<HashedWheelTimeout<F>>,
}

impl<F> View for HashedWheelBucket<F> {
    type V = Seq<HashedWheelTimeout<F>>;

    closed spec fn view(&self) -> Seq<HashedWheelTimeout<F>> {
        self.inner@
    }
}

impl<F> HashedWheelBucket<F> {
    /// An empty slot.
    pub fn new() -> (b: Self)
        ensures
            b@ == Seq::<HashedWheelTimeout<F>>::empty(),
    {
        Self { inner: Vec::new() }
    }

    /// Appends `timeout` to the slot.
    pub fn addTimeout(&mut self, timeout: HashedWheelTimeout<F>)
        ensures
            final(self)@ == old(self)@.push(timeout),
    {
        self.inner.push(timeout);
    }

    /// Takes out, in order, the timeouts whose rounds are used up and counts the
    /// rounds of the others down by one. The expired timeouts are handed back to be run.
    pub fn expireTimeouts(&mut self, deadline: u128) -> (expired: Vec<HashedWheelTimeout<F>>)
        ensures
            expired@ == expired_part(old(self)@),
            final(self)@ == remaining_part(old(self)@),
    {
        let mut old_inner: Vec<HashedWheelTimeout<F>> = Vec::new();
        std::mem::swap(&mut old_inner, &mut self.inner);
        let ghost s = old_inner@;
        let mut expired: Vec<HashedWheelTimeout<F>> = Vec::new();
        let mut kept: Vec<HashedWheelTimeout<F>> = Vec::new();
        for timeout in it: old_inner
            invariant
                it.seq() == s,
                expired@ == expired_part(s.take(it.index() as int)),
                kept@ == remaining_part(s.take(it.index() as int)),
        {
            let mut timeout = timeout;
            proof {
                assert(s.take(it.index() + 1).drop_last() == s.take(it.index() as int));
            }
            if timeout.remainingRounds == 0 {
                expired.push(timeout);
            } else {
                timeout.remainingRounds = timeout.remainingRounds - 1;
                kept.push(timeout);
            }
        }
        proof {
            assert(s.take(s.len() as int) == s);
        }
        self.inner = kept;
        expired
    }
}


/// The tick a timeout's deadline falls in, for ticks of `td` milliseconds.
pub open spec fn due_of<F>(e: HashedWheelTimeout<F>, td: int) -> int {
    e.spec_deadline() as int / td
}

/// The tick at which `e` is to be handed back when the wheel is at tick `tick`: its due
/// tick, or the current tick when that has already passed.
pub open spec fn target_tick<F>(e: HashedWheelTimeout<F>, tick: int, td: int) -> int {
    if due_of(e, td) >= tick {
        due_of(e, td)
    } else {
        tick
    }
}

/// `e`, sitting in slot `slot` of a wheel of `len` slots at tick `tick`, comes due at
/// the tick its deadline falls in (its deadline divided by the tick duration `td`), or
/// at the current tick when that has already passed.
pub open spec fn on_schedule<F>(e: HashedWheelTimeout<F>, slot: int, tick: int, len: int, td: int) -> bool {
    &&& e.spec_state() == TimeoutState::INIT
    &&& td > 0
    &&& due_tick(tick, slot, e.spec_rounds() as int, len) == target_tick(e, tick, td)
}

/// `e` as it is put into the wheel at tick `tick`: with the full turns of a wheel of
/// `len` slots that lie between `tick` and its target tick (none when it is late).
pub open spec fn scheduled<F>(e: HashedWheelTimeout<F>, tick: int, len: int, td: int) -> HashedWheelTimeout<F> {
    e.with_rounds(((target_tick(e, tick, td) - tick) / len) as u128)
}

/// The timeouts of `batch` that a transfer at tick `tick` puts into slot `slot`, in order:
/// those not cancelled whose target tick hashes to that slot (a late one goes to the
/// slot of the current tick).
pub open spec fn placed<F>(batch: Seq<HashedWheelTimeout<F>>, slot: int, tick: int, len: int, td: int) -> Seq<HashedWheelTimeout<F>>
    decreases batch.len(),
{
    if batch.len() == 0 {
        Seq::empty()
    } else {
        let r = placed(batch.drop_last(), slot, tick, len, td);
        let e = batch.last();
        if e.spec_state() != TimeoutState::CANCELED && target_tick(e, tick, td) % len == slot {
            r.push(scheduled(e, tick, len, td))
        } else {
            r
        }
    }
}

/// Counting down the rounds of the slot visited at `tick` keeps every remaining timeout
/// on schedule for the next tick, and every timeout whose rounds are used up is due now
/// or late.
proof fn lemma_expire_on_schedule<F>(s: Seq<HashedWheelTimeout<F>>, slot: int, tick: int, len: int, td: int)
    requires
        len > 0,
        0 <= slot < len,
        slot == tick % len,
        forall|m: int| 0 <= m < s.len() ==> on_schedule(#[trigger] s[m], slot, tick, len, td),
    ensures
        forall|k: int|
            0 <= k < remaining_part(s).len() ==> on_schedule(#[trigger] remaining_part(s)[k], slot, tick + 1, len, td),
        forall|k: int|
            0 <= k < expired_part(s).len() ==> due_of(#[trigger] expired_part(s)[k], td) <= tick,
    decreases s.len(),
{
    if s.len() > 0 {
        let t = s.drop_last();
        assert forall|m: int| 0 <= m < t.len() implies on_schedule(#[trigger] t[m], slot, tick, len, td) by {
            assert(t[m] == s[m]);
        }
        lemma_expire_on_schedule(t, slot, tick, len, td);
        let e = s.last();
        assert(on_schedule(s[s.len() - 1], slot, tick, len, td));
        lemma_advance_due(tick, slot, e.spec_rounds() as int, len);
        let r = remaining_part(t);
        let x = expired_part(t);
        if e.spec_rounds() > 0 {
            let e2 = e.with_rounds((e.spec_rounds() - 1) as u128);
            lemma_mul_strictly_positive(e.spec_rounds() as int, len);
            assert(e.spec_rounds() as int * len >= len) by (nonlinear_arith)
                requires
                    e.spec_rounds() >= 1,
                    len > 0,
            ;
            assert(on_schedule(e2, slot, tick + 1, len, td));
            assert(remaining_part(s) == r.push(e2));
            assert(expired_part(s) == x);
            assert forall|k: int| 0 <= k < remaining_part(s).len() implies on_schedule(
                #[trigger] remaining_part(s)[k],
                slot,
                tick + 1,
                len,
                td,
            ) by {
                if k < r.len() {
                    assert(remaining_part(s)[k] == r[k]);
                }
            }
        } else {
            assert(remaining_part(s) == r);
            assert(expired_part(s) == x.push(e));
            assert forall|k: int| 0 <= k < expired_part(s).len() implies due_of(#[trigger] expired_part(s)[k], td)
                <= tick by {
                if k < x.len() {
                    assert(expired_part(s)[k] == x[k]);
                } else {
                    assert(expired_part(s)[k] == e);
                    assert(e.spec_rounds() as int * len == 0) by (nonlinear_arith)
                        requires
                            e.spec_rounds() == 0,
                    ;
                }
            }
        }
    }
}

/// Every timeout of `s` whose rounds are used up is among those `expired_part` takes out.
pub proof fn lemma_expired_part_takes_all_due<F>(s: Seq<HashedWheelTimeout<F>>, m: int)
    requires
        0 <= m < s.len(),
        s[m].spec_rounds() == 0,
    ensures
        expired_part(s).contains(s[m]),
    decreases s.len(),
{
    let t = s.drop_last();
    if m < s.len() - 1 {
        assert(t[m] == s[m]);
        lemma_expired_part_takes_all_due(t, m);
        let i = choose|i: int| 0 <= i < expired_part(t).len() && expired_part(t)[i] == s[m];
        if s.last().spec_rounds() == 0 {
            assert(expired_part(s)[i] == s[m]);
        }
    } else {
        assert(expired_part(s).last() == s[m]);
    }
}

/// Every timeout of the batch that is not cancelled lands in the slot its target tick
/// hashes to, with the rounds that make it come due at that tick: no timeout is lost.
pub proof fn lemma_placed_keeps_every_timeout<F>(batch: Seq<HashedWheelTimeout<F>>, m: int, tick: int, len: int, td: int)
    requires
        0 <= m < batch.len(),
        batch[m].spec_state() != TimeoutState::CANCELED,
        len > 0,
    ensures
        placed(batch, target_tick(batch[m], tick, td) % len, tick, len, td).contains(scheduled(batch[m], tick, len, td)),
    decreases batch.len(),
{
    let slot = target_tick(batch[m], tick, td) % len;
    let t = batch.drop_last();
    if m < batch.len() - 1 {
        assert(t[m] == batch[m]);
        lemma_placed_keeps_every_timeout(t, m, tick, len, td);
        let p = placed(t, slot, tick, len, td);
        let i = choose|i: int| 0 <= i < p.len() && p[i] == scheduled(batch[m], tick, len, td);
        assert(placed(batch, slot, tick, len, td)[i] == p[i]);
    } else {
        assert(placed(batch, slot, tick, len, td).last() == scheduled(batch[m], tick, len, td));
    }
}

/// `x` is the timeout `e`, whatever its remaining rounds.
pub open spec fn same_timeout<F>(x: HashedWheelTimeout<F>, e: HashedWheelTimeout<F>) -> bool {
    &&& x.spec_task() == e.spec_task()
    &&& x.spec_deadline() == e.spec_deadline()
    &&& x.spec_state() == e.spec_state()
}

/// Every timeout of `s` that still has rounds to wait is kept by `remaining_part`, with
/// one round counted down.
pub proof fn lemma_remaining_part_keeps<F>(s: Seq<HashedWheelTimeout<F>>, m: int)
    requires
        0 <= m < s.len(),
        s[m].spec_rounds() > 0,
    ensures
        remaining_part(s).contains(s[m].with_rounds((s[m].spec_rounds() - 1) as u128)),
    decreases s.len(),
{
    let t = s.drop_last();
    let x = s[m].with_rounds((s[m].spec_rounds() - 1) as u128);
    if m < s.len() - 1 {
        assert(t[m] == s[m]);
        lemma_remaining_part_keeps(t, m);
        let i = choose|i: int| 0 <= i < remaining_part(t).len() && remaining_part(t)[i] == x;
        assert(remaining_part(s)[i] == x);
    } else {
        assert(remaining_part(s).last() == x);
    }
}

/// `ws[j + 1]` is what a turn with waited time `ds[j] > 0` makes of `ws[j]`, handing
/// back `exps[j]`, for every turn `j`; every worker on the way is well formed.
pub open spec fn turns<F>(ws: Seq<Worker<F>>, ds: Seq<u128>, exps: Seq<Seq<HashedWheelTimeout<F>>>) -> bool {
    &&& ws.len() == ds.len() + 1
    &&& exps.len() == ds.len()
    &&& forall|j: int| 0 <= j < ws.len() ==> (#[trigger] ws[j]).wf()
    &&& forall|j: int|
        0 <= j < ds.len() ==> #[trigger] ds[j] > 0 && ws[j + 1].ran_tick(ws[j], ds[j], exps[j])
}

/// Over a run of turns the ticks advance one by one, and the wheel, its mask and the
/// tick duration stay as they were.
pub proof fn lemma_turns_advance_ticks<F>(ws: Seq<Worker<F>>, ds: Seq<u128>, exps: Seq<Seq<HashedWheelTimeout<F>>>, j: int)
    requires
        turns(ws, ds, exps),
        0 <= j < ws.len(),
    ensures
        ws[j].spec_tick() == ws[0].spec_tick() + j,
        ws[j].spec_len() == ws[0].spec_len(),
        ws[j].spec_mask() == ws[0].spec_mask(),
        ws[j].spec_tick_duration() == ws[0].spec_tick_duration(),
    decreases j,
{
    if j > 0 {
        lemma_turns_advance_ticks(ws, ds, exps, j - 1);
        assert(ds[j - 1] > 0 && ws[j].ran_tick(ws[j - 1], ds[j - 1], exps[j - 1]));
        assert(ws[j].spec_buckets().len() == ws[j - 1].buckets_after_transfer().len());
    }
}

/// Over a run of turns, a timeout in slot `i` stays in slot `i` until the turn of its
/// due tick.
proof fn lemma_turns_keep_waiting<F>(
    ws: Seq<Worker<F>>,
    ds: Seq<u128>,
    exps: Seq<Seq<HashedWheelTimeout<F>>>,
    i: int,
    e: HashedWheelTimeout<F>,
    j: int,
)
    requires
        turns(ws, ds, exps),
        0 <= i < ws[0].spec_len(),
        ws[0].spec_buckets()[i].contains(e),
        0 <= j < ws.len(),
        ws[0].spec_tick() + j <= due_of(e, ws[0].spec_tick_duration() as int),
    ensures
        exists|m: int|
            0 <= m < ws[j].spec_buckets()[i].len() && same_timeout(#[trigger] ws[j].spec_buckets()[i][m], e),
    decreases j,
{
    if j == 0 {
        let m = choose|m: int| 0 <= m < ws[0].spec_buckets()[i].len() && ws[0].spec_buckets()[i][m] == e;
        assert(same_timeout(ws[0].spec_buckets()[i][m], e));
    } else {
        let p = j - 1;
        lemma_turns_keep_waiting(ws, ds, exps, i, e, p);
        lemma_turns_advance_ticks(ws, ds, exps, p);
        lemma_turns_advance_ticks(ws, ds, exps, j);
        let w = ws[p];
        assert(w.wf());
        assert(ds[p] > 0 && ws[j].ran_tick(w, ds[p], exps[p]));
        let m = choose|m: int| 0 <= m < w.spec_buckets()[i].len() && same_timeout(#[trigger] w.spec_buckets()[i][m], e);
        let x = w.spec_buckets()[i][m];
        let len = w.spec_len();
        let tick = w.spec_tick() as int;
        let td = w.spec_tick_duration() as int;
        let mid = w.buckets_after_transfer();
        assert(mid[i][m] == x);
        let slot = tick % len;
        w.lemma_wf();
        assert(on_schedule(x, i, tick, len, td));
        if i == slot {
            lemma_advance_due(tick, i, x.spec_rounds() as int, len);
            if x.spec_rounds() == 0 {
                assert(x.spec_rounds() as int * len == 0) by (nonlinear_arith)
                    requires
                        x.spec_rounds() == 0,
                ;
                assert(false);
            }
            lemma_remaining_part_keeps(mid[i], m);
            let y = x.with_rounds((x.spec_rounds() - 1) as u128);
            assert(ws[j].spec_buckets()[i] == remaining_part(mid[i]));
            let q = choose|q: int| 0 <= q < remaining_part(mid[i]).len() && remaining_part(mid[i])[q] == y;
            assert(same_timeout(ws[j].spec_buckets()[i][q], e));
        } else {
            assert(ws[j].spec_buckets()[i] == mid[i]);
            assert(same_timeout(ws[j].spec_buckets()[i][m], e));
        }
    }
}

/// Over a run of turns that reaches the due tick of a timeout in the wheel (not yet
/// passed), the timeout is handed back at the turn of its due tick, with no rounds
/// left, and at no turn before it is anything due at that tick or later handed back:
/// each timeout runs at its due tick, never before. The ticks advance one by one, and
/// every turn uses the same wheel and mask.
pub proof fn lemma_turns_run_each_timeout_at_its_due_tick<F>(
    ws: Seq<Worker<F>>,
    ds: Seq<u128>,
    exps: Seq<Seq<HashedWheelTimeout<F>>>,
    i: int,
    e: HashedWheelTimeout<F>,
)
    requires
        turns(ws, ds, exps),
        0 <= i < ws[0].spec_len(),
        ws[0].spec_buckets()[i].contains(e),
        ws[0].spec_tick() <= due_of(e, ws[0].spec_tick_duration() as int) < ws[0].spec_tick() + ds.len(),
    ensures
        ({
            let c = due_of(e, ws[0].spec_tick_duration() as int) - ws[0].spec_tick();
            &&& 0 <= c < ds.len()
            &&& exps[c].contains(e.with_rounds(0))
            &&& forall|j: int, m: int|
                0 <= j < c && 0 <= m < exps[j].len() ==> due_of(
                    #[trigger] exps[j][m],
                    ws[0].spec_tick_duration() as int,
                ) < due_of(e, ws[0].spec_tick_duration() as int)
        }),
        forall|j: int|
            0 <= j < ws.len() ==> (#[trigger] ws[j]).spec_tick() == ws[0].spec_tick() + j && ws[j].spec_len()
                == ws[0].spec_len() && ws[j].spec_mask() == ws[0].spec_mask(),
{
    let td = ws[0].spec_tick_duration() as int;
    let tick0 = ws[0].spec_tick() as int;
    let d = due_of(e, td);
    let m0 = choose|m: int| 0 <= m < ws[0].spec_buckets()[i].len() && ws[0].spec_buckets()[i][m] == e;
    assert(ws[0].spec_buckets()[i][m0] == e);
    let c = d - tick0;
    lemma_turns_keep_waiting(ws, ds, exps, i, e, c);
    lemma_turns_advance_ticks(ws, ds, exps, c);
    let w = ws[c];
    let m = choose|m: int| 0 <= m < w.spec_buckets()[i].len() && same_timeout(#[trigger] w.spec_buckets()[i][m], e);
    let x = w.spec_buckets()[i][m];
    assert(ds[c] > 0 && ws[c + 1].ran_tick(w, ds[c], exps[c]));
    w.lemma_due_now_is_in_current_slot(i, m);
    w.lemma_turn_hands_back_all_due(&ws[c + 1], ds[c], exps[c], i, m);
    assert(x == e.with_rounds(0));
    assert forall|j: int, q: int| 0 <= j < c && 0 <= q < exps[j].len() implies due_of(#[trigger] exps[j][q], td) < d by {
        lemma_turns_advance_ticks(ws, ds, exps, j);
        assert(ds[j] > 0 && ws[j + 1].ran_tick(ws[j], ds[j], exps[j]));
    }
    assert forall|j: int| 0 <= j < ws.len() implies (#[trigger] ws[j]).spec_tick() == ws[0].spec_tick() + j
        && ws[j].spec_len() == ws[0].spec_len() && ws[j].spec_mask() == ws[0].spec_mask() by {
        lemma_turns_advance_ticks(ws, ds, exps, j);
    }
}

/// The worker's state: the wheel, the queue of timeouts handed to the worker and not
/// yet placed in the wheel (oldest first), the pending count, and the clock of the wheel.
pub struct Worker<F> {
    workerState: WorkerState,
    tickDuration: u128,
    wheel: Vec<HashedWheelBucket<F>>,
    mask: u128,
    queue: VecDeque<HashedWheelTimeout<F>>,
    pendingTimeouts: u64,
    maxPendingTimeouts: u64,
    startTime: u128,
    tick: u128,
}

impl<F> Worker<F> {
    pub closed spec fn spec_state(&self) -> WorkerState {
        self.workerState
    }

    pub closed spec fn spec_tick_duration(&self) -> u128 {
        self.tickDuration
    }

    /// The slots of the wheel, each with its timeouts in arrival order.
    pub closed spec fn spec_buckets(&self) -> Seq<Seq<HashedWheelTimeout<F>>> {
        self.wheel@.map_values(|b: HashedWheelBucket<F>| b@)
    }

    /// Timeouts handed to the worker and not yet moved into the wheel, oldest first.
    pub closed spec fn spec_queue(&self) -> Seq<HashedWheelTimeout<F>> {
        self.queue@
    }

    pub closed spec fn spec_mask(&self) -> u128 {
        self.mask
    }

    pub closed spec fn spec_pending(&self) -> u64 {
        self.pendingTimeouts
    }

    pub closed spec fn spec_max_pending(&self) -> u64 {
        self.maxPendingTimeouts
    }

    pub closed spec fn spec_start_time(&self) -> u128 {
        self.startTime
    }

    pub closed spec fn spec_tick(&self) -> u128 {
        self.tick
    }

    /// The number of slots of the wheel.
    pub open spec fn spec_len(&self) -> int {
        self.spec_buckets().len() as int
    }

    /// The wheel has a power-of-two number of slots, the mask selects a slot, and
    /// every timeout in the wheel comes due at the tick its deadline falls in.
    pub closed spec fn wf(&self) -> bool {
        &&& is_power_of_two(self.wheel@.len() as int)
        &&& self.wheel@.len() <= usize::MAX
        &&& self.mask == self.wheel@.len() - 1
        &&& self.workerState == WorkerState::STARTED ==> self.startTime != 0
        &&& forall|k: int| 0 <= k < self.queue@.len() ==> (#[trigger] self.queue@[k]).spec_state() == TimeoutState::INIT
        &&& forall|i: int, k: int|
            0 <= i < self.wheel@.len() && 0 <= k < self.wheel@[i]@.len() ==> on_schedule(
                #[trigger] self.wheel@[i]@[k],
                i,
                self.tick as int,
                self.wheel@.len() as int,
                self.tickDuration as int,
            )
    }

    /// What `wf` gives a caller: the shape of the wheel and the schedule of its timeouts.
    pub proof fn lemma_wf(&self)
        requires
            self.wf(),
        ensures
            is_power_of_two(self.spec_len()),
            self.spec_len() <= usize::MAX,
            self.spec_mask() == self.spec_len() - 1,
            self.spec_state() == WorkerState::STARTED ==> self.spec_start_time() != 0,
            forall|k: int| 0 <= k < self.spec_queue().len() ==> (#[trigger] self.spec_queue()[k]).spec_state() == TimeoutState::INIT,
            forall|i: int, k: int|
                0 <= i < self.spec_len() && 0 <= k < self.spec_buckets()[i].len() ==> on_schedule(
                    #[trigger] self.spec_buckets()[i][k],
                    i,
                    self.spec_tick() as int,
                    self.spec_len(),
                    self.spec_tick_duration() as int,
                ),
    {
        assert forall|i: int, k: int|
            0 <= i < self.spec_len() && 0 <= k < self.spec_buckets()[i].len() implies on_schedule(
                #[trigger] self.spec_buckets()[i][k],
                i,
                self.spec_tick() as int,
                self.spec_len(),
                self.spec_tick_duration() as int,
            ) by {
            assert(self.spec_buckets()[i] == self.wheel@[i]@);
        }
    }

    /// A worker for a wheel of `ticksPerWheel` slots (rounded up to a power of two),
    /// turning every `tickDuration` milliseconds, with at most `maxPendingTimeouts`
    /// pending timeouts (no limit when 0).
    pub fn new(tickDuration: u128, ticksPerWheel: u128, maxPendingTimeouts: u64) -> (w: Self)
        requires
            ticksPerWheel <= usize::MAX as u128 / 2 + 1,
        ensures
            w.wf(),
            w.spec_state() == WorkerState::INIT,
            w.spec_tick_duration() == tickDuration,
            is_wheel_size_for(w.spec_len(), ticksPerWheel as int),
            forall|i: int| 0 <= i < w.spec_len() ==> (#[trigger] w.spec_buckets()[i]).len() == 0,
            w.spec_queue().len() == 0,
            w.spec_pending() == 1,
            w.spec_max_pending() == maxPendingTimeouts,
            w.spec_start_time() == 0,
            w.spec_tick() == 0,
    {
        let wheel = HashedWheelTimer::<F>::createWheel(ticksPerWheel);
        let mask = wheel.len() as u128 - 1;
        let w = Self {
            workerState: WorkerState::INIT,
            tickDuration: tickDuration,
            wheel: wheel,
            mask: mask,
            queue: VecDeque::new(),
            pendingTimeouts: 1,
            maxPendingTimeouts: maxPendingTimeouts,
            startTime: 0,
            tick: 0,
        };
        proof {
            assert forall|i: int| 0 <= i < w.spec_len() implies (#[trigger] w.spec_buckets()[i]).len() == 0 by {
                assert(w.spec_buckets()[i] == w.wheel@[i]@);
            }
        }
        w
    }

    /// The settings and the clock of `self` and `other` agree: all but the wheel and the queue.
    pub open spec fn same_clock(&self, other: &Self) -> bool {
        &&& self.spec_state() == other.spec_state()
        &&& self.spec_tick_duration() == other.spec_tick_duration()
        &&& self.spec_mask() == other.spec_mask()
        &&& self.spec_pending() == other.spec_pending()
        &&& self.spec_max_pending() == other.spec_max_pending()
        &&& self.spec_start_time() == other.spec_start_time()
        &&& self.spec_tick() == other.spec_tick()
    }

    /// `self` and `other` hold the same settings, clock, wheel and queue.
    pub open spec fn same_state(&self, other: &Self) -> bool {
        &&& self.same_clock(other)
        &&& self.spec_buckets() == other.spec_buckets()
        &&& self.spec_queue() == other.spec_queue()
    }

    /// A worker with the same state as a well-formed one is well formed.
    pub proof fn lemma_same_state_wf(&self, other: &Self)
        requires
            self.wf(),
            other.same_state(self),
        ensures
            other.wf(),
    {
        assert(self.spec_buckets().len() == other.spec_buckets().len());
        assert forall|i: int, k: int|
            0 <= i < other.wheel@.len() && 0 <= k < other.wheel@[i]@.len() implies on_schedule(
                #[trigger] other.wheel@[i]@[k],
                i,
                other.tick as int,
                other.wheel@.len() as int,
                other.tickDuration as int,
            ) by {
            assert(self.spec_buckets()[i] == other.spec_buckets()[i]);
            assert(other.wheel@[i]@[k] == self.wheel@[i]@[k]);
        }
        assert forall|k: int| 0 <= k < other.queue@.len() implies (#[trigger] other.queue@[k]).spec_state()
            == TimeoutState::INIT by {
            assert(other.queue@[k] == self.queue@[k]);
        }
    }

    /// How many queued timeouts one transfer moves: all of them, up to the per-tick limit.
    pub open spec fn batch_len(&self) -> int {
        if self.spec_queue().len() < MAX_TRANSFER_PER_TICK {
            self.spec_queue().len() as int
        } else {
            MAX_TRANSFER_PER_TICK as int
        }
    }

    /// The timeouts one transfer moves, oldest first.
    pub open spec fn batch(&self) -> Seq<HashedWheelTimeout<F>> {
        self.spec_queue().take(self.batch_len())
    }

    /// A transfer can place every timeout of the batch: the tick duration is not zero
    /// where a deadline has to be divided by it.
    pub open spec fn transfer_ready(&self) -> bool {
        forall|k: int|
            0 <= k < self.batch_len() && (#[trigger] self.spec_queue()[k]).spec_state() != TimeoutState::CANCELED
                ==> self.spec_tick_duration() > 0
    }

    /// The slots of the wheel once the batch has been moved into it.
    pub open spec fn buckets_after_transfer(&self) -> Seq<Seq<HashedWheelTimeout<F>>> {
        Seq::new(
            self.spec_buckets().len(),
            |j: int|
                self.spec_buckets()[j] + placed(
                    self.batch(),
                    j,
                    self.spec_tick() as int,
                    self.spec_len(),
                    self.spec_tick_duration() as int,
                ),
        )
    }

    /// Moves the queued timeouts, up to the per-tick limit and oldest first, into the
    /// wheel: each one not cancelled goes to the slot its due tick hashes to, with the
    /// full turns of the wheel it still has to wait; one whose due tick has passed goes
    /// to the slot of the current tick with no rounds left, so that it expires now.
    pub fn transferTimeoutsToBuckets(&mut self)
        requires
            old(self).wf(),
            old(self).transfer_ready(),
        ensures
            final(self).wf(),
            final(self).same_clock(old(self)),
            final(self).spec_queue() == old(self).spec_queue().skip(old(self).batch_len()),
            final(self).spec_buckets() == old(self).buckets_after_transfer(),
            old(self).spec_queue().len() <= MAX_TRANSFER_PER_TICK ==> final(self).spec_queue().len() == 0,
            old(self).spec_queue().len() > MAX_TRANSFER_PER_TICK ==> final(self).spec_queue() == old(
                self,
            ).spec_queue().skip(MAX_TRANSFER_PER_TICK as int),
    {
        let ghost old_queue = self.queue@;
        let ghost old_wheel = self.wheel@;
        let ghost tick = self.tick as int;
        let ghost td = self.tickDuration as int;
        let ghost len = self.wheel@.len() as int;
        let ghost old_self = *self;
        let mut i: usize = 0;
        while i < MAX_TRANSFER_PER_TICK
            invariant
                i <= MAX_TRANSFER_PER_TICK,
                i <= old_queue.len(),
                self.queue@ == old_queue.skip(i as int),
                self.wheel@.len() == len,
                len == old_wheel.len(),
                tick == self.tick,
                td == self.tickDuration,
                self.same_clock(&old_self),
                old_self == *old(self),
                old_self.spec_queue() == old_queue,
                old_self.spec_buckets() == old_wheel.map_values(|b: HashedWheelBucket<F>| b@),
                old_self.transfer_ready(),
                old_self.spec_tick() == tick,
                old_self.spec_tick_duration() == td,
                forall|j: int| 0 <= j < len ==> (#[trigger] self.wheel@[j])@ == old_wheel[j]@ + placed(
                    old_queue.take(i as int),
                    j,
                    tick,
                    len,
                    td,
                ),
                self.wf(),
            decreases MAX_TRANSFER_PER_TICK - i,
        {
            let ghost before = self.wheel@;
            let next = self.queue.pop_front();
            match next {
                Some(timeout) => {
                    let mut timeout = timeout;
                    let ghost e = old_queue[i as int];
                    proof {
                        assert(old_queue.take(i + 1).drop_last() == old_queue.take(i as int));
                        assert(old_queue.take(i + 1).last() == e);
                        assert(timeout == e);
                    }
                    if timeout.state == TimeoutState::CANCELED {
                        i += 1;
                        continue;
                    }
                    proof {
                        assert(old_queue[i as int] == old_self.spec_queue()[i as int]);
                        assert(td > 0);
                    }
                    let calculated = timeout.deadline / self.tickDuration;
                    // Ensure we don't schedule for past.
                    let ticks = calculated.max(self.tick);
                    timeout.remainingRounds = (ticks - self.tick) / (self.wheel.len() as u128);
                    let stopIndex = ticks & self.mask;
                    proof {
                        assert(ticks == target_tick(e, tick, td));
                        lemma_mask_is_mod(ticks, len as u128);
                        lemma_placement_due(ticks as int, tick, len);
                        assert(timeout == scheduled(e, tick, len, td));
                    }
                    self.wheel[stopIndex as usize].addTimeout(timeout);
                    proof {
                        let slot = stopIndex as int;
                        assert forall|j: int| 0 <= j < len implies (#[trigger] self.wheel@[j])@ == old_wheel[j]@ + placed(
                            old_queue.take(i + 1),
                            j,
                            tick,
                            len,
                            td,
                        ) by {
                            if j == slot {
                                assert(self.wheel@[j]@ == before[j]@.push(timeout));
                            } else {
                                assert(self.wheel@[j] == before[j]);
                            }
                        }
                        assert forall|a: int, k: int|
                            0 <= a < self.wheel@.len() && 0 <= k < self.wheel@[a]@.len() implies on_schedule(
                                #[trigger] self.wheel@[a]@[k],
                                a,
                                self.tick as int,
                                self.wheel@.len() as int,
                                self.tickDuration as int,
                            ) by {
                            if a == slot && k == before[a]@.len() {
                                assert(self.wheel@[a]@[k] == timeout);
                            } else {
                                assert(self.wheel@[a]@[k] == before[a]@[k]);
                            }
                        }
                    }
                }
                None => {
                    proof {
                        assert(old_self == *old(self));
                        assert(i == old_queue.len());
                        assert(self.queue@ =~= old_queue.skip(old_self.batch_len()));
                        assert(old_queue.take(i as int) == old_self.batch());
                        assert(self.spec_buckets() =~= old_self.buckets_after_transfer());
                    }
                    return;
                }
            }
            i += 1;
        }
        proof {
            assert(old_queue.take(i as int) == old_self.batch());
            assert(self.spec_buckets() =~= old_self.buckets_after_transfer());
        }
    }

    /// One turn of the worker's loop, given the time `deadline` it waited for: when that
    /// is not zero, moves queued timeouts into the wheel, takes out the timeouts of the
    /// current slot whose rounds are used up (to be run), counts the others down and
    /// advances the tick. Every timeout taken out is due at exactly the current tick.
    pub fn run_tick(&mut self, deadline: u128) -> (expired: Vec<HashedWheelTimeout<F>>)
        requires
            old(self).wf(),
            deadline > 0 ==> old(self).transfer_ready() && old(self).spec_tick() < u128::MAX,
        ensures
            final(self).wf(),
            final(self).ran_tick(*old(self), deadline, expired@),
    {
        if deadline > 0 {
            let ghost old_self = *self;
            self.transferTimeoutsToBuckets();
            let ghost mid = *self;
            let idx = self.tick & self.mask;
            let wheel_len = self.wheel.len();
            let ghost len = wheel_len as int;
            let ghost tick = self.tick as int;
            let ghost td = self.tickDuration as int;
            proof {
                assert(mid.wf());
                assert(len <= usize::MAX);
                assert((len as u128) as int == len);
                lemma_mask_is_mod(self.tick, len as u128);
                let slot = idx as int;
                assert forall|m: int| 0 <= m < mid.wheel@[slot]@.len() implies on_schedule(
                    #[trigger] mid.wheel@[slot]@[m],
                    slot,
                    tick,
                    len,
                    td,
                ) by {}
                lemma_expire_on_schedule(mid.wheel@[slot]@, slot, tick, len, td);
            }
            let expired = self.wheel[idx as usize].expireTimeouts(deadline);
            self.tick += 1;
            proof {
                let slot = idx as int;
                assert forall|a: int, k: int|
                    0 <= a < self.wheel@.len() && 0 <= k < self.wheel@[a]@.len() implies on_schedule(
                        #[trigger] self.wheel@[a]@[k],
                        a,
                        self.tick as int,
                        self.wheel@.len() as int,
                        self.tickDuration as int,
                    ) by {
                    if a == slot {
                        assert(self.wheel@[a]@ == remaining_part(mid.wheel@[slot]@));
                    } else {
                        assert(self.wheel@[a] == mid.wheel@[a]);
                        let x = mid.wheel@[a]@[k];
                        assert(on_schedule(x, a, tick, len, td));
                        lemma_advance_due(tick, a, x.spec_rounds() as int, len);
                        vstd::arithmetic::div_mod::lemma_mod_bound(a - tick, len);
                        lemma_mul_nonnegative(x.spec_rounds() as int, len);
                    }
                }
                assert(mid.spec_buckets() == old_self.buckets_after_transfer());
                assert(mid.spec_buckets()[slot] == mid.wheel@[slot]@);
                assert(self.spec_buckets() =~= mid.spec_buckets().update(slot, remaining_part(mid.wheel@[slot]@)));
            }
            expired
        } else {
            Vec::new()
        }
    }

    /// The wall-clock time (in milliseconds) at which the worker may take its next
    /// tick can be waited for: the worker is started, and the goal of the next tick and
    /// the time elapsed since the start can be computed.
    pub open spec fn wait_ready(&self, currentTime: u128) -> bool {
        self.spec_state() == WorkerState::STARTED ==> {
            &&& self.spec_start_time() <= currentTime
            &&& self.spec_tick() < u128::MAX
            &&& self.spec_tick_duration() * (self.spec_tick() + 1) + 999999 <= u128::MAX
        }
    }

    /// The step of waiting that `next_tick_wait` takes at wall-clock time `currentTime`:
    /// stop when the worker is not started; the tick is due once the time elapsed since
    /// the start reaches `tickDuration * (tick + 1)`; until then, sleep the rest of the
    /// way, rounded up to whole milliseconds from the goal taken in nanoseconds.
    pub open spec fn spec_next_tick_wait(&self, currentTime: u128) -> TickWait {
        let elapsed = currentTime - self.spec_start_time();
        let goal = self.spec_tick_duration() * (self.spec_tick() + 1);
        if self.spec_state() != WorkerState::STARTED {
            TickWait::Stop
        } else if elapsed >= goal {
            TickWait::Ready(elapsed as u128)
        } else {
            TickWait::Sleep(((goal + 999999 - elapsed) / 1000000) as u128)
        }
    }

    /// `self` is what one turn of the worker, given the waited time `deadline`, makes
    /// of `before`, handing back `expired` to be run: nothing when `deadline` is zero;
    /// otherwise the batch is moved into the wheel, the current slot gives up its
    /// expired timeouts and counts the others down, and the tick advances. No timeout is
    /// handed back before its due tick.
    pub open spec fn ran_tick(&self, before: Self, deadline: u128, expired: Seq<HashedWheelTimeout<F>>) -> bool {
        &&& deadline == 0 ==> expired.len() == 0 && *self == before
        &&& deadline > 0 ==> {
            let slot = before.spec_tick() as int % before.spec_len();
            let mid = before.buckets_after_transfer();
            &&& expired == expired_part(mid[slot])
            &&& self.spec_buckets() == mid.update(slot, remaining_part(mid[slot]))
            &&& self.spec_queue() == before.spec_queue().skip(before.batch_len())
            &&& self.spec_tick() == before.spec_tick() + 1
            &&& self.spec_state() == before.spec_state()
            &&& self.spec_tick_duration() == before.spec_tick_duration()
            &&& self.spec_mask() == before.spec_mask()
            &&& self.spec_pending() == before.spec_pending()
            &&& self.spec_max_pending() == before.spec_max_pending()
            &&& self.spec_start_time() == before.spec_start_time()
            &&& forall|k: int|
                0 <= k < expired.len() ==> due_of(#[trigger] expired[k], before.spec_tick_duration() as int)
                    <= before.spec_tick()
        }
    }

    /// One step of waiting for the next tick at wall-clock time `currentTime` (in
    /// milliseconds), as `spec_next_tick_wait` says: stop, sleep, or take the tick with
    /// the time elapsed since the start.
    pub fn next_tick_wait(&self, currentTime: u128) -> (w: TickWait)
        requires
            self.wait_ready(currentTime),
        ensures
            w == self.spec_next_tick_wait(currentTime),
    {
        if self.workerState != WorkerState::STARTED {
            return TickWait::Stop;
        }
        let deadline = self.tickDuration * (self.tick + 1);
        let mut currentTime = currentTime;
        currentTime -= self.startTime;
        let goal = deadline + 999999;
        let sleepTimeMs = if goal > currentTime {
            (goal - currentTime) / 1000000
        } else {
            0
        };
        if sleepTimeMs <= 0 {
            TickWait::Ready(currentTime)
        } else {
            TickWait::Sleep(sleepTimeMs)
        }
    }

    /// Whether a transfer can place every timeout of its batch (`transfer_ready`).
    pub fn can_transfer(&self) -> (b: bool)
        ensures
            b == self.transfer_ready(),
    {
        let n = if self.queue.len() < MAX_TRANSFER_PER_TICK {
            self.queue.len()
        } else {
            MAX_TRANSFER_PER_TICK
        };
        let mut k: usize = 0;
        while k < n
            invariant
                n == self.batch_len(),
                k <= n,
                forall|j: int|
                    0 <= j < k && (#[trigger] self.spec_queue()[j]).spec_state() != TimeoutState::CANCELED
                        ==> self.spec_tick_duration() > 0,
            decreases n - k,
        {
            let e = &self.queue[k];
            if e.state != TimeoutState::CANCELED {
                if self.tickDuration == 0 {
                    return false;
                }
            }
            k += 1;
        }
        true
    }

    /// A limit on pending timeouts is set and the count is already above it: adding a
    /// timeout now is not allowed.
    pub open spec fn spec_over_pending_limit(&self) -> bool {
        self.spec_max_pending() > 0 && self.spec_pending() > self.spec_max_pending()
    }

    /// Whether adding a timeout now is not allowed (`spec_over_pending_limit`).
    pub fn over_pending_limit(&self) -> (b: bool)
        ensures
            b == self.spec_over_pending_limit(),
            self.spec_max_pending() == 0 ==> !b,
            self.spec_max_pending() > 0 ==> (b <==> self.spec_pending() > self.spec_max_pending()),
    {
        self.maxPendingTimeouts > 0 && self.pendingTimeouts > self.maxPendingTimeouts
    }

    /// Counts one more pending timeout, as the worker's counter does (wrapping). Only
    /// allowed while the count is not above a set limit.
    pub fn reserve_pending(&mut self)
        requires
            !old(self).spec_over_pending_limit(),
        ensures
            final(self).spec_state() == old(self).spec_state(),
            final(self).spec_tick_duration() == old(self).spec_tick_duration(),
            final(self).spec_mask() == old(self).spec_mask(),
            final(self).spec_max_pending() == old(self).spec_max_pending(),
            final(self).spec_start_time() == old(self).spec_start_time(),
            final(self).spec_tick() == old(self).spec_tick(),
            final(self).spec_buckets() == old(self).spec_buckets(),
            final(self).spec_queue() == old(self).spec_queue(),
            final(self).wf() == old(self).wf(),
            final(self).spec_pending() == if old(self).spec_pending() < u64::MAX {
                (old(self).spec_pending() + 1) as u64
            } else {
                0u64
            },
    {
        self.pendingTimeouts = self.pendingTimeouts.wrapping_add(1);
    }

    /// Starts the worker at wall-clock time `now`: a new worker is marked started,
    /// with `now` as its start time (1 in place of 0, which means "not started"), and
    /// must be given a thread (`true`); a started one is left as it is (`false`).
    /// A stopped worker cannot be started again.
    pub fn start_at(&mut self, now: u128) -> (spawn: bool)
        requires
            old(self).spec_state() != WorkerState::SHUTDOWN,
        ensures
            old(self).wf() ==> final(self).wf(),
            final(self).spec_tick_duration() == old(self).spec_tick_duration(),
            final(self).spec_mask() == old(self).spec_mask(),
            final(self).spec_pending() == old(self).spec_pending(),
            final(self).spec_max_pending() == old(self).spec_max_pending(),
            final(self).spec_tick() == old(self).spec_tick(),
            final(self).spec_buckets() == old(self).spec_buckets(),
            final(self).spec_queue() == old(self).spec_queue(),
            final(self).spec_state() == WorkerState::STARTED,
            spawn == (old(self).spec_state() == WorkerState::INIT),
            old(self).spec_state() == WorkerState::INIT ==> final(self).spec_start_time() == if now == 0 {
                1
            } else {
                now
            },
            old(self).spec_state() == WorkerState::STARTED ==> final(self).spec_start_time()
                == old(self).spec_start_time(),
    {
        if self.workerState == WorkerState::INIT {
            self.workerState = WorkerState::STARTED;
            let mut startTime = now;
            if startTime == 0 {
                startTime = 1;
            }
            self.startTime = startTime;
            true
        } else {
            false
        }
    }

    /// The deadline, measured from the start of the worker, of a timeout due `delay`
    /// milliseconds after wall-clock time `now`: the largest deadline when that time
    /// does not fit in a `u128` (a positive delay past the end of the clock), none when
    /// it lies before the start.
    pub open spec fn spec_deadline_for(&self, delay: u128, now: u128) -> Option<u128> {
        if now + delay > u128::MAX {
            Some(u128::MAX)
        } else if now + delay < self.spec_start_time() {
            None
        } else {
            Some((now + delay - self.spec_start_time()) as u128)
        }
    }

    /// Queues a timeout for `task`, due `delay` milliseconds after wall-clock time `now`,
    /// with the deadline `spec_deadline_for` gives; refused when that time lies before
    /// the start of the worker.
    pub fn add_timeout_at(&mut self, task: F, delay: u128, now: u128) -> (r: Result<(), TimerError>)
        ensures
            final(self).wf() == old(self).wf(),
            final(self).same_clock(old(self)),
            final(self).spec_buckets() == old(self).spec_buckets(),
            old(self).spec_deadline_for(delay, now) matches Some(deadline) ==> {
                &&& r == Ok::<(), TimerError>(())
                &&& final(self).spec_queue().len() == old(self).spec_queue().len() + 1
                &&& final(self).spec_queue().drop_last() == old(self).spec_queue()
                &&& final(self).spec_queue().last().spec_task() == task
                &&& final(self).spec_queue().last().spec_deadline() == deadline
                &&& final(self).spec_queue().last().spec_state() == TimeoutState::INIT
                &&& final(self).spec_queue().last().spec_rounds() == 0
            },
            old(self).spec_deadline_for(delay, now) is None ==> {
                &&& r == Err::<(), TimerError>(TimerError::DeadlineBeforeStart)
                &&& final(self).spec_queue() == old(self).spec_queue()
            },
            old(self).spec_start_time() <= now + delay <= u128::MAX ==> r is Ok
                && final(self).spec_queue().last().spec_deadline() + old(self).spec_start_time() == now + delay,
            now + delay > u128::MAX ==> r is Ok && final(self).spec_queue().last().spec_deadline() == u128::MAX,
            now + delay < old(self).spec_start_time() ==> r is Err,
    {
        let deadline = if now > u128::MAX - delay {
            // Guard against overflow.
            u128::MAX
        } else {
            let sum = now + delay;
            if sum < self.startTime {
                return Err(TimerError::DeadlineBeforeStart);
            }
            sum - self.startTime
        };
        let timeout = HashedWheelTimeout::new(task, deadline);
        self.queue.push_back(timeout);
        proof {
            assert(self.queue@.drop_last() == old(self).queue@);
        }
        Ok(())
    }

    pub fn state(&self) -> (s: WorkerState)
        ensures
            s == self.spec_state(),
    {
        self.workerState
    }

    pub fn tick_duration(&self) -> (d: u128)
        ensures
            d == self.spec_tick_duration(),
    {
        self.tickDuration
    }

    pub fn tick(&self) -> (t: u128)
        ensures
            t == self.spec_tick(),
    {
        self.tick
    }

    pub fn start_time(&self) -> (t: u128)
        ensures
            t == self.spec_start_time(),
    {
        self.startTime
    }

    pub fn pending_timeouts(&self) -> (n: u64)
        ensures
            n == self.spec_pending(),
    {
        self.pendingTimeouts
    }

    pub fn max_pending_timeouts(&self) -> (n: u64)
        ensures
            n == self.spec_max_pending(),
    {
        self.maxPendingTimeouts
    }

    /// The number of slots of the wheel.
    pub fn wheel_len(&self) -> (n: usize)
        ensures
            n == self.spec_len(),
    {
        self.wheel.len()
    }

    /// The number of timeouts in slot `i`.
    pub fn bucket_len(&self, i: usize) -> (n: usize)
        requires
            i < self.spec_len(),
        ensures
            n == self.spec_buckets()[i as int].len(),
    {
        self.wheel[i].inner.len()
    }

    /// The number of queued timeouts not yet in the wheel.
    pub fn queue_len(&self) -> (n: usize)
        ensures
            n == self.spec_queue().len(),
    {
        self.queue.len()
    }

    /// Masking a tick with the wheel's mask picks the slot the tick hashes to: its
    /// remainder modulo the number of slots.
    pub proof fn lemma_mask_selects_slot(&self, t: u128)
        requires
            self.wf(),
        ensures
            t & self.spec_mask() == t % (self.spec_len() as u128),
            t % (self.spec_len() as u128) < self.spec_len(),
    {
        assert(self.spec_buckets().len() == self.wheel@.len());
        lemma_mask_is_mod(t, self.wheel@.len() as u128);
    }

    /// A timeout in the wheel that is due at the current tick, or whose due tick has
    /// passed, sits in the current slot with no rounds left: it expires on this tick.
    pub proof fn lemma_due_now_is_in_current_slot(&self, i: int, k: int)
        requires
            self.wf(),
            0 <= i < self.spec_len(),
            0 <= k < self.spec_buckets()[i].len(),
            due_of(self.spec_buckets()[i][k], self.spec_tick_duration() as int) <= self.spec_tick(),
        ensures
            i == self.spec_tick() as int % self.spec_len(),
            self.spec_buckets()[i][k].spec_rounds() == 0,
    {
        self.lemma_wf();
        let len = self.spec_len();
        let e = self.spec_buckets()[i][k];
        let tick = self.spec_tick() as int;
        assert(on_schedule(e, i, tick, len, self.spec_tick_duration() as int));
        lemma_advance_due(tick, i, e.spec_rounds() as int, len);
        vstd::arithmetic::div_mod::lemma_mod_bound(i - tick, len);
        if e.spec_rounds() > 0 {
            lemma_mul_strictly_positive(e.spec_rounds() as int, len);
        } else {
            lemma_mul_nonnegative(e.spec_rounds() as int, len);
        }
    }

    /// A turn of the worker hands back every timeout that was in the wheel and due at
    /// the tick of that turn or before: none is skipped.
    pub proof fn lemma_turn_hands_back_all_due(&self, after: &Self, deadline: u128, expired: Seq<HashedWheelTimeout<F>>, i: int, k: int)
        requires
            self.wf(),
            deadline > 0,
            after.ran_tick(*self, deadline, expired),
            0 <= i < self.spec_len(),
            0 <= k < self.spec_buckets()[i].len(),
            due_of(self.spec_buckets()[i][k], self.spec_tick_duration() as int) <= self.spec_tick(),
        ensures
            expired.contains(self.spec_buckets()[i][k]),
    {
        self.lemma_due_now_is_in_current_slot(i, k);
        let mid = self.buckets_after_transfer();
        assert(mid[i][k] == self.spec_buckets()[i][k]);
        lemma_expired_part_takes_all_due(mid[i], k);
    }

    /// A transfer loses no timeout: each one of the batch that is not cancelled ends up
    /// in the slot its target tick hashes to (its due tick, or the current tick when that
    /// has passed), with the rounds that make it come due then.
    pub proof fn lemma_transfer_keeps_every_timeout(&self, m: int)
        requires
            self.wf(),
            self.transfer_ready(),
            0 <= m < self.batch_len(),
            self.batch()[m].spec_state() != TimeoutState::CANCELED,
        ensures
            ({
                let e = self.batch()[m];
                let td = self.spec_tick_duration() as int;
                let target = target_tick(e, self.spec_tick() as int, td);
                let slot = target % self.spec_len();
                let placed_e = scheduled(e, self.spec_tick() as int, self.spec_len(), td);
                &&& 0 <= slot < self.spec_len()
                &&& self.buckets_after_transfer()[slot].contains(placed_e)
                &&& due_tick(self.spec_tick() as int, slot, placed_e.spec_rounds() as int, self.spec_len())
                    == target
            }),
    {
        self.lemma_wf();
        let e = self.batch()[m];
        let td = self.spec_tick_duration() as int;
        let len = self.spec_len();
        let tick = self.spec_tick() as int;
        assert(e == self.spec_queue()[m]);
        lemma_placement_due(target_tick(e, tick, td), tick, len);
        let slot = target_tick(e, tick, td) % len;
        lemma_placed_keeps_every_timeout(self.batch(), m, tick, len, td);
        let p = placed(self.batch(), slot, tick, len, td);
        let i = choose|i: int| 0 <= i < p.len() && p[i] == scheduled(e, tick, len, td);
        let b = self.spec_buckets()[slot];
        assert(self.buckets_after_transfer()[slot] == b + p);
        assert((b + p)[b.len() + i] == p[i]);
    }

    /// With no limit set (0), adding timeouts is never refused, however many are
    /// pending; with a limit set, it is refused exactly when the pending count is above it.
    pub proof fn lemma_pending_limit(&self)
        ensures
            self.spec_max_pending() == 0 ==> !self.spec_over_pending_limit(),
            self.spec_max_pending() > 0 ==> (self.spec_over_pending_limit() <==> self.spec_pending()
                > self.spec_max_pending()),
            self.spec_pending() <= self.spec_max_pending() ==> !self.spec_over_pending_limit(),
    {
    }

    /// A transfer takes the oldest queued timeouts, all of them when at most 100000 are
    /// queued (the queue is then empty), and exactly 100000 otherwise.
    pub proof fn lemma_transfer_takes_up_to_100000(&self)
        ensures
            MAX_TRANSFER_PER_TICK == 100000,
            self.spec_queue().len() <= 100000 ==> self.batch_len() == self.spec_queue().len()
                && self.spec_queue().skip(self.batch_len()).len() == 0,
            self.spec_queue().len() > 100000 ==> self.batch_len() == 100000 && self.spec_queue().skip(
                self.batch_len(),
            ).len() == self.spec_queue().len() - 100000,
            self.batch() == self.spec_queue().take(self.batch_len()),
    {
    }

    /// The deadline of a timeout queued at wall-clock time `now` with `delay`, measured
    /// from the start: the start time plus the deadline is `now + delay` whenever that
    /// is a `u128` not before the start; past the end of the clock it is the largest
    /// deadline; before the start there is none.
    pub proof fn lemma_deadline_for(&self, delay: u128, now: u128)
        ensures
            self.spec_start_time() <= now + delay <= u128::MAX ==> (self.spec_deadline_for(delay, now) matches Some(
                d,
            ) && d + self.spec_start_time() == now + delay),
            now + delay > u128::MAX ==> self.spec_deadline_for(delay, now) == Some(u128::MAX),
            now + delay < self.spec_start_time() ==> self.spec_deadline_for(delay, now) is None,
    {
    }

    /// Nothing to set up.
    pub fn init() {
    }
}

/// The wall-clock time in milliseconds since the Unix epoch, or `None` when the
/// system clock reads earlier than the epoch.
#[verifier::external_body]
fn currentTime() -> (t: Option<u128>) {
    std::time::SystemTime::now().duration_since(std::time::UNIX_EPOCH).ok().map(|d| d.as_millis())
}

/// A timer that runs tasks after a delay, by hashing each timeout onto a slot of a
/// wheel that a worker turns one slot per tick. The tasks are values of type `F`
/// that the timer hands back, in timeouts, when they are due.
pub struct HashedWheelTimer<F> {
    worker: Worker<F>,
}

impl<F> HashedWheelTimer<F> {
    /// The worker that holds the wheel.
    pub closed spec fn spec_worker(&self) -> Worker<F> {
        self.worker
    }

    pub open spec fn wf(&self) -> bool {
        self.spec_worker().wf()
    }

    /// A timer ticking every 100 milliseconds, with a wheel of 512 slots and no limit
    /// on pending timeouts.
    pub fn new_default() -> (t: HashedWheelTimer<F>)
        ensures
            t.wf(),
            t.spec_worker().spec_state() == WorkerState::INIT,
            t.spec_worker().spec_tick_duration() == 100,
            t.spec_worker().spec_len() == 512,
            forall|i: int| 0 <= i < 512 ==> (#[trigger] t.spec_worker().spec_buckets()[i]).len() == 0,
            t.spec_worker().spec_queue().len() == 0,
            t.spec_worker().spec_pending() == 1,
            t.spec_worker().spec_max_pending() == 0,
            t.spec_worker().spec_start_time() == 0,
            t.spec_worker().spec_tick() == 0,
    {
        let t = HashedWheelTimer::new(100, 512, 0);
        proof {
            let len = t.spec_worker().spec_len();
            lemma_wheel_size_512(len);
        }
        t
    }

    /// A timer ticking every `tickDuration` milliseconds, with a wheel of
    /// `ticksPerWheel` slots rounded up to a power of two, and at most
    /// `maxPendingTimeouts` pending timeouts (no limit when 0). Not started yet.
    pub fn new(tickDuration: u128, ticksPerWheel: u128, maxPendingTimeouts: u64) -> (t: HashedWheelTimer<F>)
        requires
            ticksPerWheel <= usize::MAX as u128 / 2 + 1,
        ensures
            t.wf(),
            t.spec_worker().spec_state() == WorkerState::INIT,
            t.spec_worker().spec_tick_duration() == tickDuration,
            is_wheel_size_for(t.spec_worker().spec_len(), ticksPerWheel as int),
            forall|i: int| 0 <= i < t.spec_worker().spec_len() ==> (#[trigger] t.spec_worker().spec_buckets()[i]).len() == 0,
            t.spec_worker().spec_queue().len() == 0,
            t.spec_worker().spec_pending() == 1,
            t.spec_worker().spec_max_pending() == maxPendingTimeouts,
            t.spec_worker().spec_start_time() == 0,
            t.spec_worker().spec_tick() == 0,
    {
        let worker = Worker::new(tickDuration, ticksPerWheel, maxPendingTimeouts);
        Self { worker }
    }

    /// The worker that holds the wheel.
    pub fn worker(&self) -> (w: &Worker<F>)
        ensures
            *w == self.spec_worker(),
    {
        &self.worker
    }

    /// Starts the timer at the current wall-clock time, as `Worker::start_at` does;
    /// `Ok(true)` when the worker has just been started and needs a thread to run it.
    /// The clock is read only when the worker is new. A stopped timer cannot be
    /// started again.
    pub fn start(&mut self) -> (r: Result<bool, TimerError>)
        requires
            old(self).wf(),
            old(self).spec_worker().spec_state() != WorkerState::SHUTDOWN,
        ensures
            final(self).wf(),
            final(self).spec_worker().spec_tick_duration() == old(self).spec_worker().spec_tick_duration(),
            final(self).spec_worker().spec_pending() == old(self).spec_worker().spec_pending(),
            final(self).spec_worker().spec_max_pending() == old(self).spec_worker().spec_max_pending(),
            final(self).spec_worker().spec_tick() == old(self).spec_worker().spec_tick(),
            final(self).spec_worker().spec_buckets() == old(self).spec_worker().spec_buckets(),
            final(self).spec_worker().spec_queue() == old(self).spec_worker().spec_queue(),
            old(self).spec_worker().spec_state() == WorkerState::INIT ==> (r == Ok::<bool, TimerError>(true)
                && final(self).spec_worker().spec_state() == WorkerState::STARTED
                && final(self).spec_worker().spec_start_time() != 0) || (r == Err::<bool, TimerError>(
                TimerError::ClockBeforeEpoch,
            ) && final(self).spec_worker().same_state(&old(self).spec_worker())),
            old(self).spec_worker().spec_state() == WorkerState::STARTED ==> r == Ok::<bool, TimerError>(false)
                && final(self).spec_worker().same_state(&old(self).spec_worker()),
    {
        let mut now: u128 = 0;
        if self.worker.workerState == WorkerState::INIT {
            match currentTime() {
                Some(t) => {
                    now = t;
                },
                None => {
                    return Err(TimerError::ClockBeforeEpoch);
                },
            }
        }
        Ok(self.worker.start_at(now))
    }

    /// Adds a timeout for `task`, due `delay` milliseconds from now, in this order:
    /// counts it as pending, starts the timer if needed, reads the clock and queues the
    /// timeout for the worker. `Ok(true)` when the worker has just been started and
    /// needs a thread to run it. Not allowed while the pending count is above a set
    /// limit, nor on a stopped timer.
    pub fn newTimeout(&mut self, task: F, delay: u128) -> (r: Result<bool, TimerError>)
        requires
            old(self).wf(),
            !old(self).spec_worker().spec_over_pending_limit(),
            old(self).spec_worker().spec_state() != WorkerState::SHUTDOWN,
        ensures
            final(self).wf(),
            final(self).spec_worker().spec_tick_duration() == old(self).spec_worker().spec_tick_duration(),
            final(self).spec_worker().spec_max_pending() == old(self).spec_worker().spec_max_pending(),
            final(self).spec_worker().spec_tick() == old(self).spec_worker().spec_tick(),
            final(self).spec_worker().spec_buckets() == old(self).spec_worker().spec_buckets(),
            final(self).spec_worker().spec_pending() == if old(self).spec_worker().spec_pending() < u64::MAX {
                (old(self).spec_worker().spec_pending() + 1) as u64
            } else {
                0u64
            },
            old(self).spec_worker().spec_state() == WorkerState::STARTED ==> {
                &&& final(self).spec_worker().spec_state() == WorkerState::STARTED
                &&& final(self).spec_worker().spec_start_time() == old(self).spec_worker().spec_start_time()
            },
            final(self).spec_worker().spec_state() == old(self).spec_worker().spec_state()
                || final(self).spec_worker().spec_state() == WorkerState::STARTED,
            final(self).spec_worker().spec_state() != WorkerState::SHUTDOWN,
            r is Err ==> final(self).spec_worker().spec_queue() == old(self).spec_worker().spec_queue(),
            r is Ok ==> {
                let w = final(self).spec_worker();
                let o = old(self).spec_worker();
                &&& r->Ok_0 == (o.spec_state() == WorkerState::INIT)
                &&& w.spec_state() == WorkerState::STARTED
                &&& w.spec_start_time() != 0
                &&& w.spec_queue().len() == o.spec_queue().len() + 1
                &&& w.spec_queue().drop_last() == o.spec_queue()
                &&& w.spec_queue().last().spec_task() == task
                &&& w.spec_queue().last().spec_state() == TimeoutState::INIT
                &&& w.spec_queue().last().spec_rounds() == 0
                &&& w.spec_queue().last().spec_deadline() + w.spec_start_time() >= delay
            },
    {
        self.worker.reserve_pending();
        let spawn = match self.start() {
            Ok(spawn) => spawn,
            Err(e) => {
                return Err(e);
            },
        };
        let now = match currentTime() {
            Some(t) => t,
            None => {
                return Err(TimerError::ClockBeforeEpoch);
            },
        };
        match self.worker.add_timeout_at(task, delay, now) {
            Ok(()) => Ok(spawn),
            Err(e) => Err(e),
        }
    }

    /// Whether the next tick can move every queued timeout of its batch into the
    /// wheel (`Worker::transfer_ready`).
    pub fn can_transfer(&self) -> (b: bool)
        ensures
            b == self.spec_worker().transfer_ready(),
    {
        self.worker.can_transfer()
    }

    /// One step of waiting for the next tick (`Worker::next_tick_wait`).
    pub fn next_tick_wait(&self, currentTime: u128) -> (w: TickWait)
        requires
            self.spec_worker().wait_ready(currentTime),
        ensures
            w == self.spec_worker().spec_next_tick_wait(currentTime),
    {
        self.worker.next_tick_wait(currentTime)
    }

    /// One turn of the worker (`Worker::run_tick`); the timeouts handed back are due.
    pub fn run_tick(&mut self, deadline: u128) -> (expired: Vec<HashedWheelTimeout<F>>)
        requires
            old(self).wf(),
            deadline > 0 ==> old(self).spec_worker().transfer_ready() && old(self).spec_worker().spec_tick() < u128::MAX,
        ensures
            final(self).wf(),
            final(self).spec_worker().ran_tick(old(self).spec_worker(), deadline, expired@),
    {
        self.worker.run_tick(deadline)
    }
    /// The smallest power of two that is at least `ticksPerWheel` (1 for 0).
    pub fn normalizeTicksPerWheel(ticksPerWheel: u128) -> (n: u128)
        requires
            ticksPerWheel <= 0x8000_0000_0000_0000_0000_0000_0000_0000u128,
        ensures
            is_wheel_size_for(n as int, ticksPerWheel as int),
    {
        let mut normalizedTicksPerWheel: u128 = 1;
        while normalizedTicksPerWheel < ticksPerWheel
            invariant
                is_power_of_two(normalizedTicksPerWheel as int),
                normalizedTicksPerWheel == 1 || normalizedTicksPerWheel / 2 < ticksPerWheel,
                ticksPerWheel <= 0x8000_0000_0000_0000_0000_0000_0000_0000u128,
                normalizedTicksPerWheel <= 0x8000_0000_0000_0000_0000_0000_0000_0000u128,
            decreases 0x8000_0000_0000_0000_0000_0000_0000_0000u128 - normalizedTicksPerWheel,
        {
            let n = normalizedTicksPerWheel;
            assert(n << 1i32 == n * 2) by (bit_vector)
                requires
                    n < 0x8000_0000_0000_0000_0000_0000_0000_0000u128,
            ;
            proof {
                lemma_double_power_of_two(n as int);
                lemma_top_u128_power_of_two();
                lemma_power_of_two_bound(2 * n, 0x8000_0000_0000_0000_0000_0000_0000_0000int);
            }
            normalizedTicksPerWheel <<= 1;
            assert(normalizedTicksPerWheel == n * 2);
        }
        return normalizedTicksPerWheel;
    }

    /// A wheel of empty slots, as many as `ticksPerWheel` rounded up to a power of two.
    pub fn createWheel(ticksPerWheel: u128) -> (wheel: Vec<HashedWheelBucket<F>>)
        requires
            ticksPerWheel <= usize::MAX as u128 / 2 + 1,
        ensures
            is_wheel_size_for(wheel@.len() as int, ticksPerWheel as int),
            forall|i: int| 0 <= i < wheel@.len() ==> (#[trigger] wheel@[i])@.len() == 0,
    {
        let ticksPerWheel = HashedWheelTimer::<F>::normalizeTicksPerWheel(ticksPerWheel);
        proof {
            if ticksPerWheel > 1 {
                assert(ticksPerWheel % 2 == 0);
            }
        }
        let mut wheel: Vec<HashedWheelBucket<F>> = Vec::with_capacity(ticksPerWheel as usize);
        let mut i: u128 = 0;
        while i < ticksPerWheel
            invariant
                i <= ticksPerWheel <= usize::MAX,
                wheel@.len() == i,
                forall|j: int| 0 <= j < wheel@.len() ==> (#[trigger] wheel@[j])@.len() == 0,
            decreases ticksPerWheel - i,
        {
            wheel.push(HashedWheelBucket::new());
            i = i + 1;
        }
        return wheel;
    }
}

} // verus!
