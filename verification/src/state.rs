//! Drawing-state stack (`save`/`restore`) and the path-building cursor.

use vstd::prelude::*;

verus! {

/// Saved drawing states, most recent last.
pub struct DrawStack<S> {
    saved: Vec<S>,
}

impl<S> View for DrawStack<S> {
    type V = Seq<S>;

    closed spec fn view(&self) -> Seq<S> {
        self.saved@
    }
}

impl<S> DrawStack<S> {
    pub fn new() -> (stack: Self)
        ensures
            stack@ == Seq::<S>::empty(),
    {
        DrawStack { saved: Vec::new() }
    }

    /// Saves `state` on top of the stack.
    pub fn save(&mut self, state: S)
        ensures
            final(self)@ == old(self)@.push(state),
    {
        self.saved.push(state);
    }

    /// Takes back the most recently saved state; with nothing saved, returns
    /// `None` and changes nothing.
    pub fn restore(&mut self) -> (res: Option<S>)
        ensures
            old(self)@.len() == 0 ==> res is None && final(self)@ == old(self)@,
            old(self)@.len() > 0 ==> res == Some(old(self)@.last()) && final(self)@ == old(
                self,
            )@.drop_last(),
    {
        self.saved.pop()
    }

    pub fn depth(&self) -> (n: usize)
        ensures
            n == self@.len(),
    {
        self.saved.len()
    }
}

/// Restoring right after saving gives back the saved state and the stack as
/// it was before the save.
pub proof fn lemma_restore_undoes_save<S>(stack: Seq<S>, state: S)
    ensures
        stack.push(state).len() > 0,
        stack.push(state).last() == state,
        stack.push(state).drop_last() == stack,
{
    assert(stack.push(state).drop_last() =~= stack);
}

/// The stack after one call: `Some(s)` is `save(s)`, `None` is `restore()`,
/// each as `DrawStack::save` and `DrawStack::restore` state it.
pub open spec fn stack_step<S>(stack: Seq<S>, op: Option<S>) -> Seq<S> {
    match op {
        Some(s) => stack.push(s),
        None => if stack.len() == 0 {
            stack
        } else {
            stack.drop_last()
        },
    }
}

/// The stack after the calls `ops`, in order.
pub open spec fn replay<S>(stack: Seq<S>, ops: Seq<Option<S>>) -> Seq<S>
    decreases ops.len(),
{
    if ops.len() == 0 {
        stack
    } else {
        stack_step(replay(stack, ops.drop_last()), ops.last())
    }
}

/// Saves minus restores in `ops`.
pub open spec fn net_saves<S>(ops: Seq<Option<S>>) -> int
    decreases ops.len(),
{
    if ops.len() == 0 {
        0
    } else {
        net_saves(ops.drop_last()) + if ops.last() is Some {
            1int
        } else {
            -1int
        }
    }
}

/// Every prefix of `ops` saves at least as often as it restores.
pub open spec fn never_below_start<S>(ops: Seq<Option<S>>) -> bool {
    forall|i: int| 0 <= i <= ops.len() ==> net_saves(#[trigger] ops.take(i)) >= 0
}

/// `ops` is a run of matched save/restore pairs.
pub open spec fn balanced<S>(ops: Seq<Option<S>>) -> bool {
    never_below_start(ops) && net_saves(ops) == 0
}

proof fn lemma_replay_keeps_base<S>(stack: Seq<S>, ops: Seq<Option<S>>)
    requires
        never_below_start(ops),
    ensures
        replay(stack, ops).len() == stack.len() + net_saves(ops),
        replay(stack, ops).take(stack.len() as int) == stack,
    decreases ops.len(),
{
    assert(ops.take(ops.len() as int) =~= ops);
    if ops.len() > 0 {
        let d = ops.drop_last();
        assert forall|i: int| 0 <= i <= d.len() implies net_saves(#[trigger] d.take(i)) >= 0 by {
            assert(d.take(i) =~= ops.take(i));
        }
        lemma_replay_keeps_base(stack, d);
        let r = replay(stack, d);
        assert(net_saves(ops.take(ops.len() as int)) >= 0);
        match ops.last() {
            Some(v) => {
                assert(r.push(v).take(stack.len() as int) =~= r.take(stack.len() as int));
            },
            None => {
                assert(r.drop_last().take(stack.len() as int) =~= r.take(stack.len() as int));
            },
        }
    }
}

/// A restore matched with a save, however many balanced save/restore pairs
/// stand between them, gives back the state that was saved and the stack as
/// it was before the save.
pub proof fn lemma_restore_after_balanced<S>(stack: Seq<S>, state: S, ops: Seq<Option<S>>)
    requires
        balanced(ops),
    ensures
        replay(stack.push(state), ops) == stack.push(state),
        replay(stack.push(state), ops.push(None)) == stack,
        stack_step(replay(stack.push(state), ops), None) == stack,
{
    lemma_replay_keeps_base(stack.push(state), ops);
    let r = replay(stack.push(state), ops);
    assert(r =~= r.take(r.len() as int));
    assert(r =~= stack.push(state));
    assert(ops.push(None).drop_last() =~= ops);
    assert(stack.push(state).drop_last() =~= stack);
}

/// How a path segment that starts away from the current point is attached.
pub enum SegmentStart {
    /// Start a new subpath at the segment's first point.
    MoveTo,
    /// Draw a straight line from the current point to the segment's first point.
    LineTo,
}

/// Whether a path is being built and whether it has a current point. Path
/// commands outside `begin_path ... fill/stroke/clip` are ignored.
#[derive(Clone, Copy)]
pub struct PathCursor {
    pub open: bool,
    pub has_current_point: bool,
}

impl PathCursor {
    /// No path under construction.
    pub fn new() -> (c: Self)
        ensures
            !c.open,
            !c.has_current_point,
    {
        PathCursor { open: false, has_current_point: false }
    }

    /// Starts a fresh path with no current point.
    pub fn begin(&mut self)
        ensures
            final(self).open,
            !final(self).has_current_point,
    {
        self.open = true;
        self.has_current_point = false;
    }

    /// `moveTo`: applies only while a path is open, and sets the current point.
    pub fn move_to(&mut self) -> (applies: bool)
        ensures
            applies == old(self).open,
            final(self).open == old(self).open,
            final(self).has_current_point == (old(self).open || old(self).has_current_point),
    {
        if self.open {
            self.has_current_point = true;
        }
        self.open
    }

    /// `lineTo`: draws a line from the current point, or, with no current
    /// point, starts a subpath at the target instead. `None` when no path is
    /// open.
    pub fn line_to(&mut self) -> (res: Option<SegmentStart>)
        ensures
            final(self).open == old(self).open,
            !old(self).open ==> res is None && *final(self) == *old(self),
            old(self).open ==> final(self).has_current_point,
            old(self).open && old(self).has_current_point ==> res == Some(SegmentStart::LineTo),
            old(self).open && !old(self).has_current_point ==> res == Some(SegmentStart::MoveTo),
    {
        if !self.open {
            return None;
        }
        if !self.has_current_point {
            self.has_current_point = true;
            return Some(SegmentStart::MoveTo);
        }
        Some(SegmentStart::LineTo)
    }

    /// A curve (`quadraticCurveTo`, `bezierCurveTo`): with no current point a
    /// subpath first starts at the first control point (`Some(MoveTo)`);
    /// otherwise the curve continues from the current point (`Some(LineTo)`
    /// stands for "no extra move"). `None` when no path is open.
    pub fn curve_to(&mut self) -> (res: Option<SegmentStart>)
        ensures
            final(self).open == old(self).open,
            !old(self).open ==> res is None && *final(self) == *old(self),
            old(self).open ==> final(self).has_current_point,
            old(self).open && old(self).has_current_point ==> res == Some(SegmentStart::LineTo),
            old(self).open && !old(self).has_current_point ==> res == Some(SegmentStart::MoveTo),
    {
        self.line_to()
    }

    /// An arc or ellipse: connects to the arc's start point with a line when
    /// the subpath has a current point, else starts a subpath there. `None`
    /// when no path is open.
    pub fn arc_start(&mut self) -> (res: Option<SegmentStart>)
        ensures
            final(self).open == old(self).open,
            !old(self).open ==> res is None && *final(self) == *old(self),
            old(self).open ==> final(self).has_current_point,
            old(self).open && old(self).has_current_point ==> res == Some(SegmentStart::LineTo),
            old(self).open && !old(self).has_current_point ==> res == Some(SegmentStart::MoveTo),
    {
        self.line_to()
    }

    /// `closePath`: applies only while a path is open; the current point is
    /// kept.
    pub fn close(&self) -> (applies: bool)
        ensures
            applies == self.open,
    {
        self.open
    }

    /// Hands over the path for filling, stroking or clipping: the path is no
    /// longer open and has no current point. Reports whether one was open.
    pub fn finish(&mut self) -> (was_open: bool)
        ensures
            was_open == old(self).open,
            !final(self).open,
            !final(self).has_current_point,
    {
        let was_open = self.open;
        self.open = false;
        self.has_current_point = false;
        was_open
    }
}

} // verus!
