//! The run-length grouper: it turns a stream of entries into a stream of
//! samples, one per run of entries that share a key, holding back at most one
//! entry of the next run.

use vstd::prelude::*;
use vstd::std_specs::iter::IteratorSpec;

use crate::error::{IoKind, SampleError};
use crate::path::{key_of, lemma_split_joins, suffix_of, well_formed};
use crate::sample::{applied, blank, Sample, SampleFile, SampleView};
use crate::stream::{
    continues, emissions, event_of, events_of, extended, fault_in, is_sound,
    lemma_extend_by_entry, lemma_extend_by_fault, lemma_leading_fault, lemma_run_from_first,
    lemma_runs_unfold, lemma_tail_len_cut, lemma_tail_len_is, outcome, run_len, tail_len, Event,
};

verus! {

/// The events that a grouper has still to work through: the entry that it
/// holds back, where it holds one, and then what its upstream will hand out.
pub open spec fn upcoming(
    lookahead: Option<SampleFile>,
    rest: Seq<Result<SampleFile, IoKind>>,
) -> Seq<Event> {
    match lookahead {
        Some(file) => seq![Event::Entry(file@)] + events_of(rest),
        None => events_of(rest),
    }
}

/// What a sample or an error is, for one position of a sample stream.
pub open spec fn emitted(item: Result<Sample, SampleError>) -> Result<SampleView, SampleError> {
    match item {
        Ok(sample) => Ok(sample@),
        Err(e) => Err(e),
    }
}

/// What a stretch of a sample stream is, position by position.
pub open spec fn emitted_all(items: Seq<Result<Sample, SampleError>>) -> Seq<
    Result<SampleView, SampleError>,
> {
    items.map_values(|item: Result<Sample, SampleError>| emitted(item))
}

/// Groups the entries of an upstream into samples.
pub struct GroupBy<I: Iterator<Item = Result<SampleFile, IoKind>>> {
    inner: I,
    buffer: Option<SampleFile>,
    done: bool,
}

impl<I: Iterator<Item = Result<SampleFile, IoKind>>> GroupBy<I> {
    /// The upstream of the grouper.
    pub closed spec fn source(&self) -> I {
        self.inner
    }

    /// The entry that the grouper holds back for the next run.
    pub closed spec fn lookahead(&self) -> Option<SampleFile> {
        self.buffer
    }

    /// Whether the grouper has seen the end of its upstream.
    pub closed spec fn is_done(&self) -> bool {
        self.done
    }

    /// The number of entries that the grouper holds back: one or none.
    pub open spec fn held(&self) -> nat {
        if self.lookahead() is Some {
            1
        } else {
            0
        }
    }

    /// Whether the grouper is nearer to the end of its work than `earlier`
    /// was: its upstream has less left, or as much and less is held back.
    pub open spec fn past(&self, earlier: &Self) -> bool {
        let before = earlier.source().decrease()->0;
        let after = self.source().decrease()->0;
        after < before || (after == before && self.held() < earlier.held())
    }

    /// Whether the grouper is as near to the end of its work as `earlier`
    /// was, or nearer.
    spec fn past_or_at(&self, earlier: &Self) -> bool {
        let before = earlier.source().decrease()->0;
        let after = self.source().decrease()->0;
        after < before || (after == before && self.held() <= earlier.held())
    }

    /// A grouper is well formed when its upstream keeps the laws of
    /// iterators and comes to an end.
    pub open spec fn wf(&self) -> bool {
        self.source().obeys_prophetic_iter_laws() && self.source().decrease() is Some
    }

    /// A grouper at the start of `inner`.
    pub fn new(inner: I) -> (r: Self)
        requires
            inner.obeys_prophetic_iter_laws(),
            inner.decrease() is Some,
        ensures
            r.wf(),
            r.source() == inner,
            r.lookahead() is None,
            !r.is_done(),
    {
        GroupBy { inner, buffer: None, done: false }
    }

    /// Hands out what stands at the next position of the sample stream: the
    /// outcome of the next run of the upstream, or `None` at its end.
    ///
    /// The run is taken off the events still to come; the entry that opens
    /// the following run is held back. Once the end of the upstream was seen,
    /// the upstream is not asked again.
    pub fn next(&mut self) -> (r: Option<Result<Sample, SampleError>>)
        requires
            old(self).wf(),
        ensures
            final(self).wf(),
            old(self).is_done() ==> r is None && *final(self) == *old(self),
            !old(self).is_done() ==> ({
                let events = upcoming(old(self).lookahead(), old(self).source().remaining());
                let left = upcoming(final(self).lookahead(), final(self).source().remaining());
                let n = run_len(events) as int;
                &&& events.len() == 0 <==> r is None
                &&& r matches Some(item) ==> emitted(item) == outcome(events.take(n))
                &&& left == events.skip(n)
                &&& final(self).is_done() <==> events.len() == 0 || (is_sound(events[0]) && n
                    == events.len())
            }),
            r matches Some(Ok(sample)) ==> sample.wf(),
            r is Some ==> final(self).is_done() || final(self).past(old(self)),
    {
        if self.done {
            return None;
        }
        let ghost events = upcoming(self.buffer, self.inner.remaining());
        let first = match self.get_next_file() {
            Some(Err(err)) => {
                proof {
                    lemma_leading_fault(events);
                }
                return Some(Err(SampleError::Io(err)));
            },
            Some(Ok(first)) => first,
            None => {
                self.done = true;
                assert(events.skip(0) =~= events);
                return None;
            },
        };
        match Self::create_sample(first) {
            Err(kind) => {
                proof {
                    lemma_leading_fault(events);
                }
                Some(Err(SampleError::Io(kind)))
            },
            Ok(sample) => {
                let ghost opened = sample@;
                let r = self.collection_loop(sample);
                proof {
                    let rest = events.drop_first();
                    let n = tail_len(opened.key, rest) as int;
                    lemma_tail_len_cut(opened.key, rest);
                    let run = events.take(n + 1);
                    assert(run.drop_first() =~= rest.take(n));
                    assert(rest.skip(n) =~= events.skip(n + 1));
                    lemma_run_from_first(run);
                }
                Some(r)
            },
        }
    }

    /// Hands out all that is left of the sample stream, in order: the
    /// outcomes of all runs that the upstream still holds.
    pub fn drain(&mut self) -> (r: Vec<Result<Sample, SampleError>>)
        requires
            old(self).wf(),
        ensures
            final(self).wf(),
            final(self).is_done(),
            old(self).is_done() ==> r@.len() == 0 && *final(self) == *old(self),
            !old(self).is_done() ==> emitted_all(r@) == emissions(
                upcoming(old(self).lookahead(), old(self).source().remaining()),
            ),
            forall|i: int| 0 <= i < r@.len() && (#[trigger] r@[i]) is Ok ==> r@[i]->Ok_0.wf(),
    {
        let mut out: Vec<Result<Sample, SampleError>> = Vec::new();
        if self.done {
            return out;
        }
        let ghost events = upcoming(self.buffer, self.inner.remaining());
        assert(emitted_all(out@) + emissions(events) =~= emissions(events));
        loop
            invariant
                self.wf(),
                emitted_all(out@) + emissions(upcoming(self.buffer, self.inner.remaining()))
                    == emissions(events),
                self.done ==> upcoming(self.buffer, self.inner.remaining()).len() == 0,
                forall|i: int|
                    0 <= i < out@.len() && (#[trigger] out@[i]) is Ok ==> out@[i]->Ok_0.wf(),
            ensures
                self.done,
                emitted_all(out@) == emissions(events),
            decreases
                    (if self.done {
                        0nat
                    } else {
                        1nat
                    }),
                    self.inner.decrease()->0,
                    self.held(),
        {
            let ghost left = upcoming(self.buffer, self.inner.remaining());
            let ghost before = out@;
            match self.next() {
                None => {
                    assert(emitted_all(out@) + emissions(left) =~= emitted_all(out@));
                    break ;
                },
                Some(item) => {
                    out.push(item);
                    proof {
                        lemma_runs_unfold(left);
                        let n = run_len(left) as int;
                        assert(emitted_all(out@) =~= emitted_all(before).push(emitted(item)));
                        assert(emissions(left) =~= seq![outcome(left.take(n))] + emissions(
                            left.skip(n),
                        ));
                        assert(emitted_all(out@) + emissions(left.skip(n)) =~= emitted_all(before)
                            + emissions(left));
                    }
                },
            }
        }
        out
    }

    /// Takes the next item: the entry held back, or else the next of the
    /// upstream.
    fn get_next_file(&mut self) -> (r: Option<Result<SampleFile, IoKind>>)
        requires
            old(self).wf(),
        ensures
            final(self).wf(),
            final(self).lookahead() is None,
            final(self).is_done() == old(self).is_done(),
            ({
                let events = upcoming(old(self).lookahead(), old(self).source().remaining());
                let left = upcoming(final(self).lookahead(), final(self).source().remaining());
                if events.len() == 0 {
                    r is None && left == events
                } else {
                    r matches Some(item) && event_of(item) == events[0] && left
                        == events.drop_first()
                }
            }),
            old(self).lookahead() is Some ==> final(self).source() == old(self).source(),
            r is Some ==> final(self).past(old(self)),
    {
        match self.buffer.take() {
            Some(value) => {
                assert(upcoming(old(self).buffer, old(self).inner.remaining()).drop_first()
                    =~= events_of(self.inner.remaining()));
                Some(Ok(value))
            },
            None => {
                let item = self.inner.next();
                assert(item is Some ==> events_of(old(self).inner.remaining().drop_first())
                    =~= events_of(old(self).inner.remaining()).drop_first());
                item
            },
        }
    }

    /// Takes into `sample` every following event that continues its run, and
    /// holds back the entry that opens the next run. The result is the
    /// sample, or the error of the last faulty event where there was one.
    fn collection_loop(&mut self, sample: Sample) -> (r: Result<Sample, SampleError>)
        requires
            old(self).wf(),
        ensures
            final(self).wf(),
            ({
                let rest = upcoming(old(self).lookahead(), old(self).source().remaining());
                let n = tail_len(sample@.key, rest) as int;
                &&& match fault_in(sample@.target is Some, rest.take(n)) {
                    Some(e) => r == Err::<Sample, SampleError>(e),
                    None => r matches Ok(grown) && grown@ == extended(sample@, rest.take(n)),
                }
                &&& upcoming(final(self).lookahead(), final(self).source().remaining())
                    == rest.skip(n)
                &&& final(self).is_done() == (old(self).is_done() || n == rest.len())
            }),
            final(self).is_done() || final(self).past_or_at(old(self)),
    {
        let mut sample = sample;
        let mut res: Option<SampleError> = None;
        let ghost rest = upcoming(self.buffer, self.inner.remaining());
        let ghost first = sample@;
        let ghost mut n: int = 0;
        proof {
            assert(rest.take(0) =~= Seq::<Event>::empty());
            assert(rest.skip(0) =~= rest);
            assert(extended(first, Seq::empty()) == first) by {
                assert(first.frames + Seq::<Seq<u8>>::empty() =~= first.frames);
            }
        }
        loop
            invariant_except_break
                self.done == old(self).done,
                self.past_or_at(old(self)),
            invariant
                self.wf(),
                0 <= n <= rest.len(),
                forall|i: int| 0 <= i < n ==> continues(first.key, #[trigger] rest[i]),
                sample@ == extended(first, rest.take(n)),
                res == fault_in(first.target is Some, rest.take(n)),
                upcoming(self.buffer, self.inner.remaining()) == rest.skip(n),
            ensures
                n == tail_len(first.key, rest),
                self.done == (old(self).done || n == rest.len()),
                self.done || self.past_or_at(old(self)),
            decreases
                    self.inner.decrease()->0,
                    (if self.buffer is Some {
                        1nat
                    } else {
                        0nat
                    }),
        {
            let item = self.get_next_file();
            proof {
                if item is Some {
                    assert(rest.skip(n)[0] == rest[n]);
                    assert(rest.skip(n).drop_first() =~= rest.skip(n + 1));
                    assert(rest.take(n + 1) =~= rest.take(n).push(rest[n]));
                } else {
                    lemma_tail_len_cut(first.key, rest);
                    lemma_tail_len_is(first.key, rest, n);
                }
            }
            match item {
                None => {
                    self.done = true;
                    break ;
                },
                Some(Err(kind)) => {
                    res = Some(SampleError::Io(kind));
                    proof {
                        lemma_extend_by_fault(first, rest.take(n), rest[n]);
                        n = n + 1;
                    }
                },
                Some(Ok(next)) => {
                    match next.path_info() {
                        Err(kind) => {
                            res = Some(SampleError::Io(kind));
                            proof {
                                lemma_extend_by_fault(first, rest.take(n), rest[n]);
                                n = n + 1;
                            }
                        },
                        Ok((key, file_name)) => {
                            if !(key == sample.key) {
                                self.buffer = Some(next);
                                proof {
                                    lemma_tail_len_is(first.key, rest, n);
                                    assert(upcoming(self.buffer, self.inner.remaining())
                                        =~= rest.skip(n));
                                }
                                break ;
                            }
                            proof {
                                lemma_extend_by_entry(first, rest.take(n), rest[n]);
                                n = n + 1;
                            }
                            match sample.update(file_name.as_str(), next.data) {
                                Err(e) => {
                                    res = Some(e);
                                },
                                Ok(()) => {},
                            }
                        },
                    }
                },
            }
        }
        match res {
            Some(err) => Err(err),
            None => Ok(sample),
        }
    }

    /// The sample that the first entry of a run opens: it has the key of the
    /// entry and what the entry itself contributes. An entry whose path is
    /// not well formed opens none.
    pub fn create_sample(first: SampleFile) -> (r: Result<Sample, IoKind>)
        ensures
            well_formed(first@.path) <==> r is Ok,
            r matches Ok(sample) ==> sample.wf() && applied(
                blank(key_of(first@.path)),
                suffix_of(first@.path),
                first@.data,
            ) == Ok::<SampleView, SampleError>(sample@),
            r matches Err(kind) ==> kind == IoKind::MalformedPath,
    {
        match first.path_info() {
            Err(kind) => Err(kind),
            Ok((key, file_name)) => {
                proof {
                    lemma_split_joins(first@.path);
                }
                let mut sample = Sample::new(key);
                let _ = sample.update(file_name.as_str(), first.data);
                Ok(sample)
            },
        }
    }
}

} // verus!
