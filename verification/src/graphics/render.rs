//! The render context that a frame's traversal threads through every node,
//! and the capability that a node's payload has to offer.

use vstd::prelude::*;

verus! {

/// One draw submission: a mesh, and the shader program to draw it with.
/// Both are handles into resources that the host has already uploaded.
#[derive(Clone, Copy, Debug, PartialEq, Eq, Structural)]
pub struct DrawCall {
    pub program: u32,
    pub mesh: u32,
}

/// The frame-scoped context: it collects the draw calls of one frame in the
/// order in which they were submitted. Its view is that sequence.
///
/// A frame can fail. From then on the context takes no more submissions,
/// and it stays failed: what it holds is what was drawn before the failure.
pub struct RenderManager {
    calls: Vec<DrawCall>,
    failed: bool,
}

impl View for RenderManager {
    type V = Seq<DrawCall>;

    closed spec fn view(&self) -> Seq<DrawCall> {
        self.calls@
    }
}

impl RenderManager {
    /// Whether the frame has failed.
    pub closed spec fn spec_failed(&self) -> bool {
        self.failed
    }

    /// A context for a new frame: nothing submitted, nothing failed.
    pub fn new() -> (rm: RenderManager)
        ensures
            rm@ == Seq::<DrawCall>::empty(),
            !rm.spec_failed(),
    {
        RenderManager { calls: Vec::new(), failed: false }
    }

    /// Submits `call` behind everything submitted so far. A frame that has
    /// failed takes nothing.
    pub fn submit(&mut self, call: DrawCall)
        ensures
            final(self).spec_failed() == old(self).spec_failed(),
            final(self)@ == if old(self).spec_failed() {
                old(self)@
            } else {
                old(self)@.push(call)
            },
    {
        if !self.failed {
            self.calls.push(call);
        }
    }

    /// Gives the frame up. What was submitted stays.
    pub fn fail(&mut self)
        ensures
            final(self).spec_failed(),
            final(self)@ == old(self)@,
    {
        self.failed = true;
    }

    /// Whether the frame has failed.
    #[verifier::when_used_as_spec(spec_failed)]
    pub fn failed(&self) -> (failed: bool)
        ensures
            failed == self.spec_failed(),
    {
        self.failed
    }

    /// The draw calls submitted so far, oldest first.
    pub fn submissions(&self) -> (calls: &Vec<DrawCall>)
        ensures
            calls@ == self@,
    {
        &self.calls
    }
}

/// What was submitted between the moment the context held `before` and the
/// moment it held `after`. Meaningful where `before` is a prefix of `after`.
pub open spec fn appended(before: Seq<DrawCall>, after: Seq<DrawCall>) -> Seq<DrawCall> {
    after.skip(before.len() as int)
}

/// `object` may have got as far as `part` when its render failed: `part`
/// opens something that a whole render of it may submit.
pub open spec fn may_start<R: Render + ?Sized>(object: &R, part: Seq<DrawCall>) -> bool {
    exists|whole: Seq<DrawCall>| #[trigger] object.may_draw(whole) && part.is_prefix_of(whole)
}

/// `object` leaves no choice: one render of it submits `calls` and nothing else.
pub open spec fn draws_exactly<R: Render + ?Sized>(object: &R, calls: Seq<DrawCall>) -> bool {
    forall|other: Seq<DrawCall>| #[trigger] object.may_draw(other) <==> other == calls
}

/// Anything that can draw itself into a render context.
///
/// `may_draw` is the object's own account of what one render of it may
/// submit, `may_fail` its account of whether a render of it may give the
/// frame up. An implementation that gives neither allows every sequence and
/// a failure at any time, so all that is asked of it is to submit and never
/// to take back.
pub trait Render {
    /// Whether one render of this object may submit exactly `calls`.
    open spec fn may_draw(&self, calls: Seq<DrawCall>) -> bool {
        true
    }

    /// Whether a render of this object may give the frame up.
    open spec fn may_fail(&self) -> bool {
        true
    }

    /// Draws the object: what the context held stays, in place and in order;
    /// what is new behind it is something that `may_draw` allowed, or, where
    /// the frame has failed, the start of such a thing; a frame that had not
    /// failed fails only where `may_fail` allowed it; and the object allows
    /// afterwards what it allowed before.
    fn render(&mut self, rm: &mut RenderManager)
        ensures
            old(rm)@.is_prefix_of(final(rm)@),
            !final(rm).spec_failed() ==> old(self).may_draw(appended(old(rm)@, final(rm)@)),
            final(rm).spec_failed() ==> exists|whole: Seq<DrawCall>| #[trigger]
                old(self).may_draw(whole) && appended(old(rm)@, final(rm)@).is_prefix_of(whole),
            !old(rm).spec_failed() && final(rm).spec_failed() ==> old(self).may_fail(),
            forall|calls: Seq<DrawCall>| #[trigger]
                final(self).may_draw(calls) == old(self).may_draw(calls),
            final(self).may_fail() == old(self).may_fail(),
    ;
}

/// A renderable that draws nothing.
pub struct Dummy;

impl Dummy {
    /// The renderable that draws nothing.
    pub fn new() -> (dummy: Dummy)
        ensures
            dummy == Dummy,
    {
        Dummy
    }
}

impl Render for Dummy {
    open spec fn may_draw(&self, calls: Seq<DrawCall>) -> bool {
        calls == Seq::<DrawCall>::empty()
    }

    open spec fn may_fail(&self) -> bool {
        false
    }

    fn render(&mut self, rm: &mut RenderManager)
        ensures
            *final(self) == *old(self),
            *final(rm) == *old(rm),
    {
        let ghost nothing = Seq::<DrawCall>::empty();
        assert(appended(rm@, rm@) =~= nothing);
        assert(self.may_draw(nothing) && nothing.is_prefix_of(nothing));
    }
}

/// A draw call is the simplest thing to render: it submits itself.
impl Render for DrawCall {
    open spec fn may_draw(&self, calls: Seq<DrawCall>) -> bool {
        calls == seq![*self]
    }

    open spec fn may_fail(&self) -> bool {
        false
    }

    fn render(&mut self, rm: &mut RenderManager)
        ensures
            *final(self) == *old(self),
            final(rm).spec_failed() == old(rm).spec_failed(),
            final(rm)@ == if old(rm).spec_failed() {
                old(rm)@
            } else {
                old(rm)@.push(*old(self))
            },
    {
        rm.submit(*self);
        proof {
            let whole = seq![*self];
            if rm.spec_failed() {
                assert(appended(old(rm)@, rm@) =~= Seq::<DrawCall>::empty());
                assert(self.may_draw(whole) && appended(old(rm)@, rm@).is_prefix_of(whole));
            } else {
                assert(appended(old(rm)@, rm@) =~= whole);
            }
        }
    }
}

/// A payload slot: the object in it draws, and may fail where it says so;
/// an empty slot draws nothing and never fails.
impl Render for Option<Box<dyn Render>> {
    open spec fn may_draw(&self, calls: Seq<DrawCall>) -> bool {
        match self {
            Some(object) => object.may_draw(calls),
            None => calls == Seq::<DrawCall>::empty(),
        }
    }

    open spec fn may_fail(&self) -> bool {
        match self {
            Some(object) => object.may_fail(),
            None => false,
        }
    }

    fn render(&mut self, rm: &mut RenderManager)
        ensures
            (*final(self)) is Some == (*old(self)) is Some,
            (*old(self)) is None ==> *final(rm) == *old(rm),
    {
        match self {
            Some(object) => {
                object.render(rm);
                proof {
                    let part = appended(old(rm)@, rm@);
                    if rm.spec_failed() {
                        let whole = choose|whole: Seq<DrawCall>| #[trigger]
                            old(self)->0.may_draw(whole) && part.is_prefix_of(whole);
                        assert(old(self).may_draw(whole));
                    }
                }
            },
            None => {
                let ghost nothing = Seq::<DrawCall>::empty();
                assert(appended(rm@, rm@) =~= nothing);
                assert(self.may_draw(nothing) && nothing.is_prefix_of(nothing));
            },
        }
    }
}

} // verus!
