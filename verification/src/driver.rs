//! The decisions of the handle through which IO drivers talk to a Nock app: what a
//! non-blocking receive of an effect yields, and when a batch of effects is complete.
use crate::noun::{Noun, NounV};
use vstd::prelude::*;

verus! {

/// Result of a poke: either Ack if it succeeded or Nack if it failed.
#[derive(Debug, PartialEq, Eq, Structural)]
pub enum PokeResult {
    Ack,
    Nack,
}

/// The two kinds of request to a Nock app.
#[derive(Debug, PartialEq, Eq, Structural)]
pub enum Operation {
    Poke,
    Peek,
}

/// The errors of a Nock app's handle.
#[derive(Debug, PartialEq, Eq, Structural)]
pub enum NockAppError {
    /// A failure without more detail (such as the effect receiver being busy).
    OtherError,
    /// The channel of effects was closed.
    ChannelClosedError,
    /// A request could not be sent: the app's request channel is closed or full.
    MPSCSendError,
    /// The app dropped the channel of a request's reply.
    OneshotRecvError,
    /// The receiver of effects failed (closed, or too far behind).
    BroadcastRecvError,
}

/// What a non-blocking receive on the channel of effects found.
#[derive(Debug)]
pub enum TryRecvOutcome {
    /// An effect.
    Effect(Noun),
    /// No effect is waiting.
    Empty,
    /// The channel is closed.
    Closed,
    /// The receiver fell behind and missed this many effects.
    Lagged(u64),
}

/// What `try_next_effect` returns for each outcome of the receive: the effect, or
/// nothing when none is waiting or some were missed, or an error when the channel is
/// closed.
pub fn try_next_effect_result(outcome: TryRecvOutcome) -> (r: Result<Option<Noun>, NockAppError>)
    ensures
        match outcome {
            TryRecvOutcome::Effect(e) => r matches Ok(Some(x)) && x@ == e@,
            TryRecvOutcome::Empty => r matches Ok(None),
            TryRecvOutcome::Closed => r == Err::<Option<Noun>, NockAppError>(NockAppError::ChannelClosedError),
            TryRecvOutcome::Lagged(_) => r matches Ok(None),
        },
{
    match outcome {
        TryRecvOutcome::Effect(effect) => Ok(Some(effect)),
        TryRecvOutcome::Empty => Ok(None),
        TryRecvOutcome::Closed => Err(NockAppError::ChannelClosedError),
        TryRecvOutcome::Lagged(_) => Ok(None),
    }
}

/// What happened while waiting for a further effect of a batch.
#[derive(Debug)]
pub enum BatchEvent {
    /// An effect arrived.
    Received(Noun),
    /// The receiver failed.
    RecvError,
    /// No effect arrived within the timeout.
    Timeout,
}

/// A batch of effects being collected: the first one, then more until the batch is
/// full, the receiver fails or none arrives in time.
pub struct EffectBatch {
    effects: Vec<Noun>,
    max_batch_size: usize,
}

impl EffectBatch {
    /// The effects collected so far, in the order they arrived.
    pub closed spec fn effects_view(&self) -> Seq<NounV> {
        self.effects@.map_values(|e: Noun| e@)
    }

    /// The batch size the collection stops at.
    pub closed spec fn max_size(&self) -> nat {
        self.max_batch_size as nat
    }

    /// A batch holds at least the first effect and, beyond it, no more than the
    /// maximum size.
    pub open spec fn wf(&self) -> bool {
        &&& self.effects_view().len() >= 1
        &&& self.effects_view().len() <= self.max_size() || self.effects_view().len() == 1
    }

    /// A batch that starts with the first effect.
    pub fn new(first: Noun, max_batch_size: usize) -> (r: EffectBatch)
        ensures
            r.effects_view() == seq![first@],
            r.max_size() == max_batch_size,
            r.wf(),
    {
        let mut effects: Vec<Noun> = Vec::new();
        let ghost f = first@;
        effects.push(first);
        proof {
            assert(effects@.map_values(|e: Noun| e@) =~= seq![f]);
        }
        EffectBatch { effects, max_batch_size }
    }

    /// Whether the batch wants another effect: it has fewer than the maximum.
    pub fn wants_more(&self) -> (r: bool)
        ensures
            r == (self.effects_view().len() < self.max_size()),
    {
        self.effects.len() < self.max_batch_size
    }

    /// Takes in what happened while waiting; returns whether to keep collecting. An
    /// effect joins the batch; a failure or a timeout ends the collection.
    pub fn on_event(&mut self, event: BatchEvent) -> (r: bool)
        requires
            old(self).wf(),
            old(self).effects_view().len() < old(self).max_size(),
        ensures
            final(self).wf(),
            final(self).max_size() == old(self).max_size(),
            match event {
                BatchEvent::Received(e) => final(self).effects_view() == old(self).effects_view().push(e@)
                    && r == (final(self).effects_view().len() < final(self).max_size()),
                _ => final(self).effects_view() == old(self).effects_view() && !r,
            },
    {
        match event {
            BatchEvent::Received(effect) => {
                let ghost before = self.effects@;
                let ghost e = effect@;
                self.effects.push(effect);
                proof {
                    assert(self.effects@.map_values(|x: Noun| x@) =~= before.map_values(|x: Noun| x@).push(e));
                }
                self.effects.len() < self.max_batch_size
            },
            BatchEvent::RecvError => false,
            BatchEvent::Timeout => false,
        }
    }

    /// The number of effects collected.
    pub fn len(&self) -> (r: usize)
        ensures
            r == self.effects_view().len(),
    {
        self.effects.len()
    }

    /// The effects, in the order they arrived.
    pub fn into_effects(self) -> (r: Vec<Noun>)
        ensures
            r@.map_values(|e: Noun| e@) == self.effects_view(),
    {
        self.effects
    }
}

} // verus!
