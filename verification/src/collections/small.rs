//! Anchors that gather outputs into a small vector.

use crate::collections::asking::{any_lost, ask_in_turn, asked_in_turn, has_stopped, lost, stopped, tokens_of};
use crate::collections::sequence::{small_new, small_push, small_view, Small};
use crate::expert::inputs::{lemma_within_less, lemma_within_more, within};
use crate::expert::{Anchor, AnchorInner, AnchorOutput, AnchorToken, OutputRef, Poll, Reads};
use vstd::prelude::*;

verus! {

/// An anchor whose output is the sequence of the outputs of `anchors`. It is built anew after
/// every change, and every completed poll counts as a change.
pub struct SmallVecCollect {
    pub anchors: Vec<Anchor<usize>>,
    pub vals: Option<Small>,
    pub stale: bool,
}

impl SmallVecCollect {
    pub fn new(anchors: Vec<Anchor<usize>>) -> (collect: Self)
        ensures
            collect == (SmallVecCollect { anchors, vals: None, stale: true }),
            collect.inv(),
    {
        SmallVecCollect { anchors, vals: None, stale: true }
    }

    fn target_list(&self) -> (list: Vec<Option<AnchorToken>>)
        ensures
            list@ == some_tokens(self.anchors@),
    {
        let mut list: Vec<Option<AnchorToken>> = Vec::new();
        let mut k: usize = 0;
        while k < self.anchors.len()
            invariant
                k <= self.anchors@.len(),
                list@ =~= some_tokens(self.anchors@).take(k as int),
            decreases self.anchors@.len() - k,
        {
            list.push(Some(self.anchors[k].token));
            k = k + 1;
        }
        list
    }

    /// Reads all outputs, if they can be read.
    fn read<G: Reads<usize>>(&self, ctx: &G) -> (small: Option<Small>)
        requires
            ctx.valid(),
        ensures
            small is None <==> unreadable(self.anchors@, ctx),
            small is Some ==> small_view(small->0) == readings(self.anchors@, ctx),
    {
        let mut small: Small = small_new();
        let mut k: usize = 0;
        while k < self.anchors.len()
            invariant
                k <= self.anchors@.len(),
                ctx.valid(),
                small_view(small) =~= readings(self.anchors@, ctx).take(k as int),
                forall|m: int| 0 <= m < k ==> ctx.reading((#[trigger] self.anchors@[m]).token) is Some,
            decreases self.anchors@.len() - k,
        {
            match ctx.get(&self.anchors[k]) {
                Some(v) => {
                    small_push(&mut small, *v);
                },
                None => {
                    assert(ctx.reading(self.anchors@[k as int].token) is None);
                    return None;
                },
            }
            k = k + 1;
        }
        Some(small)
    }
}

/// Requests for all of `anchors`.
pub open spec fn some_tokens(anchors: Seq<Anchor<usize>>) -> Seq<Option<AnchorToken>> {
    Seq::new(anchors.len(), |k: int| Some(anchors[k].token))
}

/// The outputs of `anchors` as they are read.
pub open spec fn readings<G: Reads<usize>>(anchors: Seq<Anchor<usize>>, ctx: &G) -> Seq<usize> {
    Seq::new(anchors.len(), |k: int| ctx.reading(anchors[k].token)->0)
}

/// The outputs of `anchors` that `outs` holds.
pub open spec fn outputs<G: Reads<usize>>(anchors: Seq<Anchor<usize>>, outs: Map<AnchorToken, G::V>) -> Seq<usize> {
    Seq::new(anchors.len(), |k: int| G::cast(outs[anchors[k].token]))
}

/// Some output cannot be read.
pub open spec fn unreadable<G: Reads<usize>>(anchors: Seq<Anchor<usize>>, ctx: &G) -> bool {
    exists|k: int| 0 <= k < anchors.len() && ctx.reading((#[trigger] anchors[k]).token) is None
}

/// What a poll makes of a gathering: `a` becomes `b` while the context goes from `before` to `after`.
pub open spec fn small_step<G: Reads<usize>>(a: SmallVecCollect, b: SmallVecCollect, before: &G, after: &G, poll: Poll) -> bool {
    if !a.stale {
        b == a && *after == *before && poll is Updated
    } else {
        exists|polls: Seq<Poll>| #[trigger]
            asked_in_turn(before, after, some_tokens(a.anchors@), polls) && if stopped(polls) {
                b == a && poll is Pending
            } else if lost(polls) || unreadable(a.anchors@, after) {
                b == a && poll is PendingInvalidToken
            } else {
                &&& poll is Updated
                &&& b.anchors == a.anchors
                &&& !b.stale
                &&& b.vals is Some
                &&& small_view(b.vals->0) == readings(a.anchors@, after)
            }
    }
}

impl AnchorOutput for SmallVecCollect {
    type Output = Small;

    type Handed = ();

    open spec fn inv(&self) -> bool {
        !self.stale ==> self.vals is Some
    }

    open spec fn had(&self) -> bool {
        self.vals is Some
    }

    open spec fn alias(&self) -> Option<AnchorToken> {
        None
    }

    open spec fn own(&self) -> Small {
        self.vals->0
    }

    open spec fn honest(&self) -> bool {
        true
    }

    open spec fn outside(&self) -> Option<()> {
        None
    }

    open spec fn displays(handed: (), out: Small) -> bool {
        true
    }

    fn output(&self) -> (out: OutputRef<'_, Small>) {
        OutputRef::Own(self.vals.as_ref().unwrap())
    }
}

impl<G: Reads<usize>> AnchorInner<G> for SmallVecCollect {
    open spec fn current(&self) -> bool {
        true
    }

    open spec fn holds(&self, told: Map<AnchorToken, G::V>) -> bool {
        !self.stale ==> within(tokens_of(self.anchors@), told) && small_view(self.vals->0) == outputs::<G>(self.anchors@, told)
    }

    open spec fn sound(&self, told: Map<AnchorToken, G::V>) -> bool {
        &&& self.vals is Some
        &&& within(tokens_of(self.anchors@), told)
        &&& small_view(self.vals->0) == outputs::<G>(self.anchors@, told)
    }

    open spec fn right(&self, seen: Map<AnchorToken, G::V>) -> bool {
        self.vals is Some ==> within(tokens_of(self.anchors@), seen) && small_view(self.vals->0) == outputs::<G>(self.anchors@, seen)
    }

    open spec fn hears(&self, later: &Self, edge: AnchorToken) -> bool {
        *later == (SmallVecCollect { stale: true, ..*self })
    }

    open spec fn polls(&self, later: &Self, before: &G, after: &G, poll: Poll) -> bool {
        small_step(*self, *later, before, after, poll)
    }

    open spec fn leans_on(&self, told: Map<AnchorToken, G::V>, d: AnchorToken) -> bool {
        tokens_of(self.anchors@).contains(d)
    }

    proof fn less_told(&self, told: Map<AnchorToken, G::V>, less: Map<AnchorToken, G::V>) {
        lemma_within_less(tokens_of(self.anchors@), told, less);
        lemma_outputs_agreeing::<G>(self.anchors@, told, less);
    }

    proof fn more_told(&self, told: Map<AnchorToken, G::V>, more: Map<AnchorToken, G::V>) {
        if within(tokens_of(self.anchors@), told) {
            lemma_within_more(tokens_of(self.anchors@), told, more);
            lemma_outputs_agreeing::<G>(self.anchors@, told, more);
        }
    }

    proof fn shows_outside(&self) {
    }

    fn dirty(&mut self, edge: AnchorToken) {
        self.stale = true;
    }

    fn poll_updated(&mut self, ctx: &mut G) -> (poll: Poll) {
        let ghost a = *self;
        let ghost before = *ctx;
        proof {
            before.evolves_reflexive();
        }
        if !self.stale {
            return Poll::Updated;
        }
        let list: Vec<Option<AnchorToken>> = self.target_list();
        let polls: Vec<Poll> = ask_in_turn(ctx, &list);
        proof {
            before.evolves_keeps(ctx);
        }
        if has_stopped(&polls) {
            return Poll::Pending;
        }
        if any_lost(&polls) {
            return Poll::PendingInvalidToken;
        }
        match self.read(ctx) {
            None => Poll::PendingInvalidToken,
            Some(small) => {
                self.vals = Some(small);
                self.stale = false;
                proof {
                    if !ctx.degraded() {
                        let tokens = tokens_of(a.anchors@);
                        assert forall|k: int| 0 <= k < tokens.len() implies ctx.told().contains_key(#[trigger] tokens[k]) by {
                            assert(list@[k] == Some(tokens[k]));
                            assert(!polls@[k].waiting());
                            assert(!(polls@[k] is PendingInvalidToken));
                            assert(polls@[k].ready());
                        }
                        lemma_within_more(tokens, ctx.told(), ctx.now());
                        assert(readings(a.anchors@, ctx) =~= outputs::<G>(a.anchors@, ctx.told())) by {
                            assert forall|k: int| 0 <= k < a.anchors@.len() implies readings(a.anchors@, ctx)[k] == outputs::<G>(a.anchors@, ctx.told())[k] by {
                                assert(ctx.reading(a.anchors@[k].token) is Some);
                                ctx.reading_is_now(a.anchors@[k].token);
                                assert(tokens[k] == a.anchors@[k].token);
                            }
                        }
                    }
                }
                Poll::Updated
            },
        }
    }
}

proof fn lemma_outputs_agreeing<G: Reads<usize>>(anchors: Seq<Anchor<usize>>, a: Map<AnchorToken, G::V>, b: Map<AnchorToken, G::V>)
    requires
        forall|k: int| 0 <= k < anchors.len() ==> a[#[trigger] tokens_of(anchors)[k]] == b[tokens_of(anchors)[k]],
    ensures
        outputs::<G>(anchors, a) == outputs::<G>(anchors, b),
{
    assert(outputs::<G>(anchors, a) =~= outputs::<G>(anchors, b)) by {
        assert forall|k: int| 0 <= k < anchors.len() implies outputs::<G>(anchors, a)[k] == outputs::<G>(anchors, b)[k] by {
            assert(tokens_of(anchors)[k] == anchors[k].token);
        }
    }
}

} // verus!
