//! What holds of run-length grouping on every stream of events.

use vstd::prelude::*;

use crate::error::{IoKind, SampleError};
use crate::path::Role;
use crate::sample::{SampleFile, SampleView};
use crate::stream::{
    emissions, event_key, events_of, fault_in, first_payload, is_sound, lemma_payloads_concat,
    lemma_runs_unfold, lemma_tail_len_cut, payloads, run_len, runs, Event,
};

verus! {

/// Every event of the stream is an entry with a well-formed path.
pub open spec fn all_sound(events: Seq<Event>) -> bool {
    forall|i: int| 0 <= i < events.len() ==> is_sound(#[trigger] events[i])
}

/// No run of the stream holds more than one target.
pub open spec fn single_targets(events: Seq<Event>) -> bool {
    forall|k: int|
        0 <= k < runs(events).len() ==> payloads(#[trigger] runs(events)[k], Role::Target).len()
            <= 1
}

/// An archive is well formed when each of its members can be read, has a
/// well-formed path, and is the only target of its run if it is a target.
pub open spec fn well_formed_archive(events: Seq<Event>) -> bool {
    all_sound(events) && single_targets(events)
}

/// The frames of all samples of a sample stream, in order.
pub open spec fn all_frames(out: Seq<Result<SampleView, SampleError>>) -> Seq<Seq<u8>>
    decreases out.len(),
{
    if out.len() == 0 {
        Seq::empty()
    } else {
        (match out.first() {
            Ok(sample) => sample.frames,
            Err(_) => Seq::empty(),
        }) + all_frames(out.drop_first())
    }
}

/// The targets of all samples of a sample stream, in order.
pub open spec fn all_targets(out: Seq<Result<SampleView, SampleError>>) -> Seq<Seq<u8>>
    decreases out.len(),
{
    if out.len() == 0 {
        Seq::empty()
    } else {
        (match out.first() {
            Ok(SampleView { target: Some(target), .. }) => seq![target],
            _ => Seq::empty(),
        }) + all_targets(out.drop_first())
    }
}

/// The runs of a stream, one after the other, are the stream: grouping cuts
/// the stream and neither drops nor reorders an event.
pub proof fn lemma_runs_partition(events: Seq<Event>)
    ensures
        runs(events).flatten() == events,
    decreases events.len(),
{
    if events.len() > 0 {
        lemma_runs_unfold(events);
        let n = run_len(events) as int;
        let head = seq![events.take(n)];
        lemma_runs_partition(events.skip(n));
        vstd::seq_lib::lemma_flatten_concat(head, runs(events.skip(n)));
        head.lemma_flatten_one_element();
    }
}

/// Both parts of a stream of sound entries, cut anywhere, are streams of
/// sound entries.
pub proof fn lemma_sound_rest(events: Seq<Event>, at: int)
    requires
        all_sound(events),
        0 <= at <= events.len(),
    ensures
        all_sound(events.take(at)),
        all_sound(events.skip(at)),
{
    assert forall|i: int| 0 <= i < events.take(at).len() implies is_sound(
        #[trigger] events.take(at)[i],
    ) by {
        assert(events.take(at)[i] == events[i]);
    }
    assert forall|i: int| 0 <= i < events.skip(at).len() implies is_sound(
        #[trigger] events.skip(at)[i],
    ) by {
        assert(events.skip(at)[i] == events[i + at]);
    }
}

/// The runs of a stream of sound entries are the maximal stretches of equal
/// keys: no run is empty, the entries of a run share one key, and a run and
/// the next have different keys.
pub proof fn lemma_runs_are_maximal(events: Seq<Event>, k: int)
    requires
        all_sound(events),
        0 <= k < runs(events).len(),
    ensures
        runs(events)[k].len() > 0,
        forall|i: int|
            0 <= i < runs(events)[k].len() ==> is_sound(#[trigger] runs(events)[k][i])
                && event_key(runs(events)[k][i]) == event_key(runs(events)[k][0]),
        k + 1 < runs(events).len() ==> event_key(runs(events)[k + 1][0]) != event_key(
            runs(events)[k][0],
        ),
    decreases events.len(),
{
    lemma_runs_unfold(events);
    let n = run_len(events) as int;
    let rest = events.skip(n);
    lemma_tail_len_cut(event_key(events[0]), events.drop_first());
    if k == 0 {
        let run = runs(events)[0];
        assert forall|i: int| 0 <= i < run.len() implies is_sound(#[trigger] run[i])
            && event_key(run[i]) == event_key(run[0]) by {
            if i > 0 {
                assert(events[i] == events.drop_first()[i - 1]);
            }
        }
        if 1 < runs(events).len() {
            lemma_runs_unfold(rest);
            assert(runs(events)[1][0] == events.drop_first()[n - 1]);
        }
    } else {
        lemma_sound_rest(events, n);
        lemma_runs_are_maximal(rest, k - 1);
    }
}

/// An entry opens a run when it is the first of the stream or its key is not
/// the key of the entry before it.
pub open spec fn opens_run(events: Seq<Event>, i: int) -> bool {
    i == 0 || event_key(events[i]) != event_key(events[i - 1])
}

/// The number of entries among the first `upto` of the stream that open a
/// run.
pub open spec fn run_openings(events: Seq<Event>, upto: nat) -> nat
    decreases upto,
{
    if upto == 0 {
        0
    } else {
        run_openings(events, (upto - 1) as nat) + if opens_run(events, upto - 1) {
            1nat
        } else {
            0nat
        }
    }
}

/// Within the first run of a stream of sound entries only the first entry
/// opens a run.
proof fn lemma_first_run_opens_once(events: Seq<Event>, upto: nat)
    requires
        all_sound(events),
        1 <= upto <= run_len(events),
    ensures
        run_openings(events, upto) == 1,
    decreases upto,
{
    lemma_runs_unfold(events);
    lemma_tail_len_cut(event_key(events[0]), events.drop_first());
    if upto == 1 {
        assert(run_openings(events, 0) == 0);
    } else {
        lemma_first_run_opens_once(events, (upto - 1) as nat);
        assert(is_sound(events[upto - 1]) && is_sound(events[upto - 2]));
        assert(events[upto - 1] == events.drop_first()[upto - 2]);
        if upto > 2 {
            assert(events[upto - 2] == events.drop_first()[upto - 3]);
        }
        assert(!opens_run(events, upto - 1));
    }
}

/// After the first run of a stream of sound entries, an entry opens a run
/// in the stream exactly when it does in what is left of the stream.
proof fn lemma_openings_after_first_run(events: Seq<Event>, upto: nat)
    requires
        all_sound(events),
        events.len() > 0,
        upto <= events.len() - run_len(events),
    ensures
        run_openings(events, run_len(events) + upto) == 1 + run_openings(
            events.skip(run_len(events) as int),
            upto,
        ),
    decreases upto,
{
    lemma_runs_unfold(events);
    let n = run_len(events);
    let rest = events.skip(n as int);
    if upto == 0 {
        lemma_first_run_opens_once(events, n);
    } else {
        lemma_openings_after_first_run(events, (upto - 1) as nat);
        assert(rest[upto - 1] == events[n + upto - 1]);
        if upto == 1 {
            lemma_tail_len_cut(event_key(events[0]), events.drop_first());
            assert(is_sound(events[n as int]) && is_sound(events[n - 1]));
            assert(events[n as int] == events.drop_first()[n - 1]);
            if n > 1 {
                assert(events[n - 1] == events.drop_first()[n - 2]);
            }
            assert(opens_run(events, n as int));
        } else {
            assert(rest[upto - 2] == events[n + upto - 2]);
        }
        assert(opens_run(events, n + upto - 1) == opens_run(rest, upto - 1));
    }
}

/// The runs of a stream of sound entries are as many as the entries that
/// open a run.
pub proof fn lemma_runs_counted(events: Seq<Event>)
    requires
        all_sound(events),
    ensures
        runs(events).len() == run_openings(events, events.len()),
    decreases events.len(),
{
    if events.len() > 0 {
        lemma_runs_unfold(events);
        let n = run_len(events) as int;
        let rest = events.skip(n);
        lemma_sound_rest(events, n);
        lemma_runs_counted(rest);
        lemma_openings_after_first_run(events, rest.len());
    }
}

/// A run of sound entries is without fault exactly when it holds at most
/// one target.
pub proof fn lemma_sound_run_fault(run: Seq<Event>)
    requires
        all_sound(run),
    ensures
        fault_in(false, run) is None <==> payloads(run, Role::Target).len() <= 1,
        fault_in(false, run) matches Some(e) ==> e == SampleError::DuplicateTarget,
    decreases run.len(),
{
    if run.len() > 0 {
        lemma_sound_rest(run, run.len() - 1);
        assert(run.take(run.len() - 1) == run.drop_last());
        lemma_sound_run_fault(run.drop_last());
    }
}

/// What is left of a well-formed archive after its first run is a
/// well-formed archive.
pub proof fn lemma_well_formed_rest(events: Seq<Event>)
    requires
        events.len() > 0,
        well_formed_archive(events),
    ensures
        well_formed_archive(events.skip(run_len(events) as int)),
        all_sound(events.take(run_len(events) as int)),
        payloads(events.take(run_len(events) as int), Role::Target).len() <= 1,
{
    lemma_runs_unfold(events);
    let n = run_len(events) as int;
    let rest = events.skip(n);
    lemma_sound_rest(events, n);
    assert forall|k: int| 0 <= k < runs(rest).len() implies payloads(
        #[trigger] runs(rest)[k],
        Role::Target,
    ).len() <= 1 by {
        assert(runs(events)[k + 1] == runs(rest)[k]);
    }
    assert(runs(events)[0] == events.take(n));
}

/// Run-length grouping: a well-formed archive gives one sample for each of
/// its runs and no error, as many as it has entries that open a run. Each
/// sample has the key of its run.
pub proof fn lemma_one_sample_per_run(events: Seq<Event>)
    requires
        well_formed_archive(events),
    ensures
        emissions(events).len() == runs(events).len(),
        emissions(events).len() == run_openings(events, events.len()),
        forall|k: int|
            0 <= k < runs(events).len() ==> (#[trigger] emissions(events)[k]) is Ok
                && emissions(events)[k]->Ok_0.key == event_key(runs(events)[k][0]),
{
    lemma_runs_counted(events);
    assert forall|k: int| 0 <= k < runs(events).len() implies (#[trigger] emissions(
        events,
    )[k]) is Ok && emissions(events)[k]->Ok_0.key == event_key(runs(events)[k][0]) by {
        let run = runs(events)[k];
        lemma_runs_are_maximal(events, k);
        assert(all_sound(run));
        assert(payloads(run, Role::Target).len() <= 1);
        lemma_sound_run_fault(run);
    }
}

/// Ordering: a sample holds the bodies of the frames of its own run, in the
/// order of the archive, and the first target of that run.
pub proof fn lemma_frames_in_archive_order(events: Seq<Event>, k: int)
    requires
        0 <= k < runs(events).len(),
        emissions(events)[k] is Ok,
    ensures
        emissions(events)[k]->Ok_0.frames == payloads(runs(events)[k], Role::Frame),
        emissions(events)[k]->Ok_0.target == first_payload(runs(events)[k], Role::Target),
        emissions(events)[k]->Ok_0.key == event_key(runs(events)[k][0]),
{
}

/// Preservation: the frames of all samples of a well-formed archive, in the
/// order in which they are handed out, are the bodies of all frame members
/// of the archive in stored order, and likewise for the targets. Nothing is
/// lost, doubled or moved to another place.
pub proof fn lemma_payloads_preserved(events: Seq<Event>)
    requires
        well_formed_archive(events),
    ensures
        all_frames(emissions(events)) == payloads(events, Role::Frame),
        all_targets(emissions(events)) == payloads(events, Role::Target),
    decreases events.len(),
{
    if events.len() == 0 {
        assert(emissions(events) =~= Seq::empty());
    } else {
        lemma_runs_unfold(events);
        lemma_well_formed_rest(events);
        let n = run_len(events) as int;
        let run = events.take(n);
        let rest = events.skip(n);
        lemma_payloads_preserved(rest);
        lemma_sound_run_fault(run);
        assert(run + rest =~= events);
        lemma_payloads_concat(run, rest, Role::Frame);
        lemma_payloads_concat(run, rest, Role::Target);
        let targets = payloads(run, Role::Target);
        assert(targets.len() > 0 ==> targets =~= seq![targets[0]]);
    }
}

/// Non-merging: where two runs of a well-formed archive have the same key,
/// they are not neighbours, and each gives a sample of its own with that
/// key, made of the members of that run alone.
pub proof fn lemma_runs_not_merged(events: Seq<Event>, i: int, j: int)
    requires
        well_formed_archive(events),
        0 <= i < j < runs(events).len(),
        event_key(runs(events)[i][0]) == event_key(runs(events)[j][0]),
    ensures
        i + 1 < j,
        emissions(events)[i] matches Ok(first) && first.key == event_key(runs(events)[i][0])
            && first.frames == payloads(runs(events)[i], Role::Frame),
        emissions(events)[j] matches Ok(second) && second.key == event_key(runs(events)[i][0])
            && second.frames == payloads(runs(events)[j], Role::Frame),
{
    lemma_one_sample_per_run(events);
    lemma_runs_are_maximal(events, i);
    assert(emissions(events)[i] is Ok);
    assert(emissions(events)[j] is Ok);
}

/// Determinism: what grouping hands out depends on the paths and bodies of
/// the entries alone. Two streams whose items agree in these give the same
/// samples and errors at the same positions.
pub proof fn lemma_grouping_is_determined(
    a: Seq<Result<SampleFile, IoKind>>,
    b: Seq<Result<SampleFile, IoKind>>,
)
    requires
        events_of(a) == events_of(b),
    ensures
        emissions(events_of(a)) == emissions(events_of(b)),
{
}

} // verus!
