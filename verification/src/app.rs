//! The cancellation token of the application loop, and the loop's
//! decisions: when an effect stops it, and when it draws and flushes.
//!
//! The loop itself, with its models and drivers, belongs to the
//! application: it is driven by threads, channels and the terminal.
use vstd::prelude::*;

use std::sync::atomic::AtomicBool;
use std::sync::atomic::Ordering;
use std::sync::Arc;

verus! {

/// A cooperative cancellation token, shared by its clones.
#[derive(Clone, Debug)]
pub struct Context {
    done: Arc<AtomicBool>,
}

impl Context {
    /// A token not cancelled.
    pub fn new() -> (c: Context) {
        Context { done: Arc::new(AtomicBool::new(false)) }
    }

    /// Whether cancellation was requested, by this token or a clone. Any
    /// thread holding a clone may request it, so the answer is not stated.
    pub fn is_done(&self) -> (b: bool) {
        self.done.load(Ordering::Relaxed)
    }

    /// Request cancellation, for this token and its clones.
    pub fn cancel(&self) {
        self.done.store(true, Ordering::Relaxed)
    }
}

/// The shape of an effect of the application loop: what the loop decides
/// by. A command and a subscription carry closures, which the loop runs;
/// only their kind matters here.
pub enum EffectShape {
    /// A one-shot command.
    Cmd,
    /// A long-running subscription.
    Sub,
    /// Stop the application loop.
    End,
    /// Several effects, carried out in order.
    Batch(Vec<EffectShape>),
}

/// Whether carrying out an effect stops the loop: it is `End`, or a batch
/// one of whose effects stops it (the effects after that one are not
/// carried out).
pub open spec fn spec_ends(e: EffectShape) -> bool
    decreases e,
{
    match e {
        EffectShape::End => true,
        EffectShape::Batch(v) => seq_ends(v@),
        _ => false,
    }
}

/// Whether one of the effects `s` stops the loop.
pub open spec fn seq_ends(s: Seq<EffectShape>) -> bool
    decreases s,
{
    if s.len() == 0 {
        false
    } else {
        seq_ends(s.drop_last()) || spec_ends(s.last())
    }
}

/// Whether carrying out the effect stops the loop.
pub fn ends(e: &EffectShape) -> (b: bool)
    ensures
        b == spec_ends(*e),
    decreases shape_size(*e),
{
    match e {
        EffectShape::End => true,
        EffectShape::Batch(v) => {
            let mut i: usize = 0;
            while i < v.len()
                invariant
                    *e == EffectShape::Batch(*v),
                    i <= v@.len(),
                    !seq_ends(v@.subrange(0, i as int)),
                decreases v@.len() - i,
            {
                proof {
                    lemma_shape_size_elem(v@, i as int);
                    assert(v@.subrange(0, i + 1).drop_last() =~= v@.subrange(0, i as int));
                }
                if ends(&v[i]) {
                    proof {
                        lemma_seq_ends_prefix(v@, i + 1);
                    }
                    return true;
                }
                i = i + 1;
            }
            proof {
                assert(v@.subrange(0, v@.len() as int) =~= v@);
            }
            false
        },
        _ => false,
    }
}

/// The number of effects in `e`, batches included.
pub open spec fn shape_size(e: EffectShape) -> nat
    decreases e,
{
    match e {
        EffectShape::Batch(v) => 1 + seq_size(v@),
        _ => 1,
    }
}

/// The number of effects in `s`, batches included.
pub open spec fn seq_size(s: Seq<EffectShape>) -> nat
    decreases s,
{
    if s.len() == 0 {
        0
    } else {
        seq_size(s.drop_last()) + shape_size(s.last())
    }
}

/// An effect of a sequence is no bigger than the sequence.
proof fn lemma_shape_size_elem(s: Seq<EffectShape>, i: int)
    requires
        0 <= i < s.len(),
    ensures
        shape_size(s[i]) <= seq_size(s),
    decreases s.len(),
{
    if i < s.len() - 1 {
        lemma_shape_size_elem(s.drop_last(), i);
    }
}

/// When a prefix of `s` stops the loop, so does `s`.
proof fn lemma_seq_ends_prefix(s: Seq<EffectShape>, k: int)
    requires
        0 <= k <= s.len(),
        seq_ends(s.subrange(0, k)),
    ensures
        seq_ends(s),
    decreases s.len() - k,
{
    if k < s.len() {
        assert(s.subrange(0, k + 1).drop_last() =~= s.subrange(0, k));
        lemma_seq_ends_prefix(s, k + 1);
    } else {
        assert(s.subrange(0, k) =~= s);
    }
}

/// What the loop does once it has drained the queued messages: draw when
/// a message was processed, and flush the frame when it changes cells.
#[derive(Clone, Copy, Debug, PartialEq, Eq, Structural)]
pub struct LoopStep {
    pub draw: bool,
    pub flush: bool,
}

/// The step after draining: draw when `processed`; flush when, in
/// addition, the frame computed after drawing changes `changed_cells > 0`
/// cells.
pub fn after_drain(processed: bool, changed_cells: usize) -> (s: LoopStep)
    ensures
        s.draw == processed,
        s.flush == (processed && changed_cells > 0),
{
    LoopStep { draw: processed, flush: processed && changed_cells > 0 }
}

impl Default for Context {
    fn default() -> (c: Context) {
        Context::new()
    }
}

} // verus!
