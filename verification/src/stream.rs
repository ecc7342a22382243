//! The mathematical model of a stream of archive members and of the samples
//! that run-length grouping makes of it.
//!
//! A stream is a sequence of events: each is an entry or the fault that took
//! its place. An entry whose path is not well formed counts as a fault.
//! Grouping cuts the sequence into runs and gives each run one outcome, a
//! sample or an error.

use vstd::prelude::*;

use crate::error::{IoKind, SampleError};
use crate::path::{key_of, role_of, suffix_of, well_formed, Role};
use crate::sample::{applied, blank, EntryView, SampleFile, SampleView};

verus! {

/// What a stream of entries holds at one position.
pub enum Event {
    /// A member that was read.
    Entry(EntryView),
    /// A member that could not be read.
    Fault(IoKind),
}

/// The event that stands for one item of an entry stream.
pub open spec fn event_of(item: Result<SampleFile, IoKind>) -> Event {
    match item {
        Ok(file) => Event::Entry(file@),
        Err(kind) => Event::Fault(kind),
    }
}

/// The events that stand for the items of an entry stream.
pub open spec fn events_of(items: Seq<Result<SampleFile, IoKind>>) -> Seq<Event> {
    items.map_values(|item: Result<SampleFile, IoKind>| event_of(item))
}

/// The fault that an event carries: that of a member that could not be read,
/// or a malformed path.
pub open spec fn fault_of(event: Event) -> Option<IoKind> {
    match event {
        Event::Fault(kind) => Some(kind),
        Event::Entry(entry) => if well_formed(entry.path) {
            None
        } else {
            Some(IoKind::MalformedPath)
        },
    }
}

/// An event is sound when it is an entry with a well-formed path.
pub open spec fn is_sound(event: Event) -> bool {
    fault_of(event) is None
}

/// The key of a sound event.
pub open spec fn event_key(event: Event) -> Seq<char> {
    key_of(event->Entry_0.path)
}

/// The role of a sound event.
pub open spec fn event_role(event: Event) -> Role {
    role_of(suffix_of(event->Entry_0.path))
}

/// The body of a sound event.
pub open spec fn event_data(event: Event) -> Seq<u8> {
    event->Entry_0.data
}

/// An event continues a run with the given key when it is a fault or a sound
/// entry with that key.
pub open spec fn continues(key: Seq<char>, event: Event) -> bool {
    !is_sound(event) || event_key(event) == key
}

/// The number of leading events of `rest` that continue a run with the given
/// key.
pub open spec fn tail_len(key: Seq<char>, rest: Seq<Event>) -> nat
    decreases rest.len(),
{
    if rest.len() == 0 || !continues(key, rest[0]) {
        0
    } else {
        1 + tail_len(key, rest.drop_first())
    }
}

/// The length of the first run of a stream: a leading fault stands alone; a
/// sound entry takes with it every following event that continues its run.
pub open spec fn run_len(events: Seq<Event>) -> nat {
    if events.len() == 0 {
        0
    } else if !is_sound(events[0]) {
        1
    } else {
        1 + tail_len(event_key(events[0]), events.drop_first())
    }
}

/// The bodies of the sound entries of `run` with the given role, in order.
pub open spec fn payloads(run: Seq<Event>, role: Role) -> Seq<Seq<u8>>
    decreases run.len(),
{
    if run.len() == 0 {
        Seq::empty()
    } else {
        let before = payloads(run.drop_last(), role);
        if is_sound(run.last()) && event_role(run.last()) == role {
            before.push(event_data(run.last()))
        } else {
            before
        }
    }
}

/// The first body among the sound entries of `run` with the given role.
pub open spec fn first_payload(run: Seq<Event>, role: Role) -> Option<Seq<u8>> {
    if payloads(run, role).len() > 0 {
        Some(payloads(run, role)[0])
    } else {
        None
    }
}

/// The error that the last faulty event of `run` leaves behind, where the
/// run has one. An event is faulty when it carries a fault, or when it is a
/// target and a target came before it: in the run, or before the run where
/// `had_target` says so.
pub open spec fn fault_in(had_target: bool, run: Seq<Event>) -> Option<SampleError>
    decreases run.len(),
{
    if run.len() == 0 {
        None
    } else {
        let before = run.drop_last();
        match fault_of(run.last()) {
            Some(kind) => Some(SampleError::Io(kind)),
            None => if event_role(run.last()) == Role::Target && (had_target || payloads(
                before,
                Role::Target,
            ).len() > 0) {
                Some(SampleError::DuplicateTarget)
            } else {
                fault_in(had_target, before)
            },
        }
    }
}

/// A sample after the events of `run` were taken into it: the frames of the
/// run follow its own, and the first target of the run is its target unless
/// it had one.
pub open spec fn extended(sample: SampleView, run: Seq<Event>) -> SampleView {
    SampleView {
        key: sample.key,
        frames: sample.frames + payloads(run, Role::Frame),
        target: if sample.target is Some {
            sample.target
        } else {
            first_payload(run, Role::Target)
        },
    }
}

/// What grouping hands out for one run: the error of its last faulty event,
/// or else the sample with the key of the run, its frames in order and its
/// target.
pub open spec fn outcome(run: Seq<Event>) -> Result<SampleView, SampleError> {
    match fault_in(false, run) {
        Some(e) => Err(e),
        None => Ok(
            SampleView {
                key: event_key(run.first()),
                frames: payloads(run, Role::Frame),
                target: first_payload(run, Role::Target),
            },
        ),
    }
}

/// The tail of a run is no longer than what is left of the stream.
pub proof fn lemma_tail_len_bound(key: Seq<char>, rest: Seq<Event>)
    ensures
        tail_len(key, rest) <= rest.len(),
    decreases rest.len(),
{
    if rest.len() > 0 && continues(key, rest[0]) {
        lemma_tail_len_bound(key, rest.drop_first());
    }
}

/// The first run of a stream that is not empty holds at least one event and
/// no more than the stream.
pub proof fn lemma_run_len_bound(events: Seq<Event>)
    requires
        events.len() > 0,
    ensures
        1 <= run_len(events) <= events.len(),
{
    if is_sound(events[0]) {
        lemma_tail_len_bound(event_key(events[0]), events.drop_first());
    }
}

/// The tail of a run ends where the stream ends or where the first event
/// stands that does not continue the run.
pub proof fn lemma_tail_len_is(key: Seq<char>, rest: Seq<Event>, n: int)
    requires
        0 <= n <= rest.len(),
        forall|i: int| 0 <= i < n ==> continues(key, #[trigger] rest[i]),
        n < rest.len() ==> !continues(key, rest[n]),
    ensures
        tail_len(key, rest) == n,
    decreases rest.len(),
{
    if n > 0 {
        let after = rest.drop_first();
        assert forall|i: int| 0 <= i < n - 1 implies continues(key, #[trigger] after[i]) by {
            assert(after[i] == rest[i + 1]);
        }
        lemma_tail_len_is(key, after, n - 1);
    }
}

/// Every event of the tail of a run continues the run, and the event after
/// the tail, where there is one, does not.
pub proof fn lemma_tail_len_cut(key: Seq<char>, rest: Seq<Event>)
    ensures
        tail_len(key, rest) <= rest.len(),
        forall|i: int| 0 <= i < tail_len(key, rest) ==> continues(key, #[trigger] rest[i]),
        tail_len(key, rest) < rest.len() ==> !continues(key, rest[tail_len(key, rest) as int]),
    decreases rest.len(),
{
    if rest.len() > 0 && continues(key, rest[0]) {
        let after = rest.drop_first();
        lemma_tail_len_cut(key, after);
        assert forall|i: int| 0 <= i < tail_len(key, rest) implies continues(
            key,
            #[trigger] rest[i],
        ) by {
            if i > 0 {
                assert(rest[i] == after[i - 1]);
            }
        }
    }
}

/// One more event adds its body to the payloads of its role where it is
/// sound, and nothing otherwise.
pub proof fn lemma_payloads_push(run: Seq<Event>, event: Event, role: Role)
    ensures
        payloads(run.push(event), role) == if is_sound(event) && event_role(event) == role {
            payloads(run, role).push(event_data(event))
        } else {
            payloads(run, role)
        },
{
    assert(run.push(event).drop_last() =~= run);
}

/// One more event decides the fault of a run where it is faulty, and leaves
/// it as it was otherwise.
pub proof fn lemma_fault_in_push(had_target: bool, run: Seq<Event>, event: Event)
    ensures
        fault_in(had_target, run.push(event)) == match fault_of(event) {
            Some(kind) => Some(SampleError::Io(kind)),
            None => if event_role(event) == Role::Target && (had_target || payloads(
                run,
                Role::Target,
            ).len() > 0) {
                Some(SampleError::DuplicateTarget)
            } else {
                fault_in(had_target, run)
            },
        },
{
    assert(run.push(event).drop_last() =~= run);
}

/// The payloads of two stretches of events, one after the other, are the
/// payloads of the first followed by those of the second.
pub proof fn lemma_payloads_concat(a: Seq<Event>, b: Seq<Event>, role: Role)
    ensures
        payloads(a + b, role) == payloads(a, role) + payloads(b, role),
    decreases b.len(),
{
    if b.len() == 0 {
        assert(a + b =~= a);
    } else {
        let init = b.drop_last();
        lemma_payloads_concat(a, init, role);
        assert((a + b).drop_last() =~= a + init);
    }
}

/// Taking a sound entry into a sample by the rule for single members gives
/// the sample extended by that entry, and a refused second target is the
/// fault of the run from then on.
pub proof fn lemma_extend_by_entry(sample: SampleView, run: Seq<Event>, event: Event)
    requires
        is_sound(event),
    ensures
        match applied(
            extended(sample, run),
            suffix_of(event->Entry_0.path),
            event_data(event),
        ) {
            Ok(next) => next == extended(sample, run.push(event)) && fault_in(
                sample.target is Some,
                run.push(event),
            ) == fault_in(sample.target is Some, run),
            Err(e) => e == SampleError::DuplicateTarget && extended(sample, run.push(event))
                == extended(sample, run) && fault_in(sample.target is Some, run.push(event))
                == Some(e),
        },
{
    lemma_payloads_push(run, event, Role::Frame);
    lemma_payloads_push(run, event, Role::Target);
    lemma_fault_in_push(sample.target is Some, run, event);
}

/// A faulty event leaves the sample as it is and becomes the fault of the
/// run.
pub proof fn lemma_extend_by_fault(sample: SampleView, run: Seq<Event>, event: Event)
    requires
        !is_sound(event),
    ensures
        extended(sample, run.push(event)) == extended(sample, run),
        fault_in(sample.target is Some, run.push(event)) == Some(
            SampleError::Io(fault_of(event)->0),
        ),
{
    lemma_payloads_push(run, event, Role::Frame);
    lemma_payloads_push(run, event, Role::Target);
    lemma_fault_in_push(sample.target is Some, run, event);
}

/// The fault of a run that begins with a sound entry is the fault of the
/// rest of the run, where a target counts as met before if the first entry
/// is one.
pub proof fn lemma_fault_after_first(first: Event, tail: Seq<Event>)
    requires
        is_sound(first),
    ensures
        fault_in(false, seq![first] + tail) == fault_in(event_role(first) == Role::Target, tail),
    decreases tail.len(),
{
    let head = seq![first];
    assert(head =~= Seq::<Event>::empty().push(first));
    if tail.len() == 0 {
        assert(head + tail =~= head);
        lemma_fault_in_push(false, Seq::empty(), first);
    } else {
        let init = tail.drop_last();
        let last = tail.last();
        lemma_fault_after_first(first, init);
        assert(head + tail =~= (head + init).push(last));
        assert(tail =~= init.push(last));
        lemma_fault_in_push(false, head + init, last);
        lemma_fault_in_push(event_role(first) == Role::Target, init, last);
        lemma_payloads_concat(head, init, Role::Target);
        lemma_payloads_push(Seq::empty(), first, Role::Target);
    }
}

/// A run that begins with a sound entry is the sample that this entry opens,
/// extended by the rest of the run.
pub proof fn lemma_run_from_first(run: Seq<Event>)
    requires
        run.len() > 0,
        is_sound(run[0]),
    ensures
        ({
            let opened = applied(
                blank(event_key(run[0])),
                suffix_of(run[0]->Entry_0.path),
                event_data(run[0]),
            );
            &&& opened is Ok
            &&& fault_in(false, run) == fault_in(opened->Ok_0.target is Some, run.drop_first())
            &&& outcome(run) is Ok ==> outcome(run)->Ok_0 == extended(
                opened->Ok_0,
                run.drop_first(),
            )
        }),
{
    let head = seq![run[0]];
    let tail = run.drop_first();
    assert(head =~= Seq::<Event>::empty().push(run[0]));
    assert(run =~= head + tail);
    lemma_fault_after_first(run[0], tail);
    lemma_payloads_push(Seq::empty(), run[0], Role::Frame);
    lemma_payloads_push(Seq::empty(), run[0], Role::Target);
    lemma_payloads_concat(head, tail, Role::Frame);
    lemma_payloads_concat(head, tail, Role::Target);
    assert(payloads(Seq::<Event>::empty(), Role::Frame) =~= Seq::<Seq<u8>>::empty());
    assert(payloads(Seq::<Event>::empty(), Role::Target) =~= Seq::<Seq<u8>>::empty());
}

/// A fault at the head of a stream is a run of its own, and its outcome.
pub proof fn lemma_leading_fault(events: Seq<Event>)
    requires
        events.len() > 0,
        !is_sound(events[0]),
    ensures
        run_len(events) == 1,
        outcome(events.take(1)) == Err::<SampleView, SampleError>(
            SampleError::Io(fault_of(events[0])->0),
        ),
        events.skip(1) == events.drop_first(),
{
    assert(events.take(1) =~= Seq::<Event>::empty().push(events[0]));
    lemma_fault_in_push(false, Seq::empty(), events[0]);
}

/// The runs of a stream, in order.
pub open spec fn runs(events: Seq<Event>) -> Seq<Seq<Event>>
    decreases events.len(),
    via runs_terminates
{
    if events.len() == 0 {
        Seq::empty()
    } else {
        seq![events.take(run_len(events) as int)] + runs(events.skip(run_len(events) as int))
    }
}

#[via_fn]
proof fn runs_terminates(events: Seq<Event>) {
    if events.len() > 0 {
        lemma_run_len_bound(events);
    }
}

/// Everything that grouping hands out for a stream, in order: the outcome of
/// each of its runs.
pub open spec fn emissions(events: Seq<Event>) -> Seq<Result<SampleView, SampleError>> {
    runs(events).map_values(|run: Seq<Event>| outcome(run))
}

/// A stream that is not empty is its first run followed by the runs of what
/// comes after it.
pub proof fn lemma_runs_unfold(events: Seq<Event>)
    requires
        events.len() > 0,
    ensures
        1 <= run_len(events) <= events.len(),
        runs(events).len() == 1 + runs(events.skip(run_len(events) as int)).len(),
        runs(events)[0] == events.take(run_len(events) as int),
        forall|k: int|
            1 <= k < runs(events).len() ==> #[trigger] runs(events)[k] == runs(
                events.skip(run_len(events) as int),
            )[k - 1],
        emissions(events).drop_first() == emissions(events.skip(run_len(events) as int)),
        emissions(events).first() == outcome(events.take(run_len(events) as int)),
{
    lemma_run_len_bound(events);
}

} // verus!
