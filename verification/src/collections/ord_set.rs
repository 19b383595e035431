//! Anchors that gather outputs into a set.

use crate::collections::asking::{any_lost, ask_in_turn, asked_in_turn, has_stopped, lost, stopped};
use crate::collections::persistent::{set_equal, set_insert, set_items, set_list, set_new, set_view};
use crate::expert::{Anchor, AnchorInner, AnchorOutput, AnchorToken, OutputRef, Poll, Reads};
use im_rc::OrdSet;
use vstd::prelude::*;

verus! {

/// An anchor whose output is the set of the outputs of `anchors`, a set of tokens.
pub struct OrdSetCollect {
    pub anchors: OrdSet<AnchorToken>,
    pub vals: Option<OrdSet<usize>>,
    pub dirty: bool,
}

/// Requests for all of `tokens`.
pub open spec fn wanted(tokens: Seq<AnchorToken>) -> Seq<Option<AnchorToken>> {
    Seq::new(tokens.len(), |k: int| Some(tokens[k]))
}

/// All of `tokens` are in `told`.
pub open spec fn covered<V>(tokens: Set<AnchorToken>, told: Map<AnchorToken, V>) -> bool {
    forall|t: AnchorToken| #[trigger] tokens.contains(t) ==> told.contains_key(t)
}

/// The set of the outputs of `tokens` that `outs` holds.
pub open spec fn image<G: Reads<usize>>(tokens: Set<AnchorToken>, outs: Map<AnchorToken, G::V>) -> Set<usize> {
    tokens.map(|t: AnchorToken| G::cast(outs[t]))
}

/// The set of the outputs of `tokens` as they are read.
pub open spec fn read_image<G: Reads<usize>>(tokens: Set<AnchorToken>, ctx: &G) -> Set<usize> {
    tokens.map(|t: AnchorToken| ctx.reading(t)->0)
}

/// Some output cannot be read.
pub open spec fn unread<G: Reads<usize>>(tokens: Set<AnchorToken>, ctx: &G) -> bool {
    exists|t: AnchorToken| #[trigger] tokens.contains(t) && ctx.reading(t) is None
}

/// What a poll makes of a gathering: `a` becomes `b` while the context goes from `before` to `after`.
/// Its anchors are asked for in ascending order. A changed set is looked at once more before the
/// gathering rests.
pub open spec fn set_step<G: Reads<usize>>(a: OrdSetCollect, b: OrdSetCollect, before: &G, after: &G, poll: Poll) -> bool {
    if !a.dirty {
        b == a && *after == *before && poll is Unchanged
    } else {
        exists|tokens: Seq<AnchorToken>, polls: Seq<Poll>|
            #![trigger asked_in_turn(before, after, wanted(tokens), polls)]
            set_items(set_view(a.anchors), tokens) && asked_in_turn(before, after, wanted(tokens), polls) && set_answered(
                a,
                b,
                after,
                polls,
                poll,
            )
    }
}

/// What comes of the answers to a gathering's requests.
pub open spec fn set_answered<G: Reads<usize>>(a: OrdSetCollect, b: OrdSetCollect, after: &G, polls: Seq<Poll>, poll: Poll) -> bool {
    let new = read_image(set_view(a.anchors), after);
    if stopped(polls) {
        b == a && poll is Pending
    } else if lost(polls) || unread(set_view(a.anchors), after) {
        b == a && poll is PendingInvalidToken
    } else if a.vals is Some && set_view(a.vals->0) == new {
        b == (OrdSetCollect { dirty: false, ..a }) && poll is Unchanged
    } else {
        &&& poll is Updated
        &&& b.anchors == a.anchors
        &&& b.dirty
        &&& b.vals is Some
        &&& set_view(b.vals->0) == new
    }
}

impl OrdSetCollect {
    pub fn new(anchors: OrdSet<AnchorToken>) -> (collect: Self)
        ensures
            collect == (OrdSetCollect { anchors, vals: None, dirty: true }),
            collect.inv(),
    {
        OrdSetCollect { anchors, vals: None, dirty: true }
    }

    /// Reads all outputs, if they can be read.
    fn read<G: Reads<usize>>(&self, ctx: &G, tokens: &Vec<AnchorToken>) -> (set: Option<OrdSet<usize>>)
        requires
            ctx.valid(),
            set_items(set_view(self.anchors), tokens@),
        ensures
            set is None <==> unread(set_view(self.anchors), ctx),
            set is Some ==> set_view(set->0) == read_image(set_view(self.anchors), ctx),
    {
        let mut set: OrdSet<usize> = set_new();
        let ghost all = set_view(self.anchors);
        let mut k: usize = 0;
        while k < tokens.len()
            invariant
                k <= tokens@.len(),
                ctx.valid(),
                all == set_view(self.anchors),
                set_items(all, tokens@),
                forall|m: int| 0 <= m < k ==> ctx.reading(#[trigger] tokens@[m]) is Some,
                forall|m: int| 0 <= m < k ==> set_view(set).contains(ctx.reading(#[trigger] tokens@[m])->0),
                forall|v: usize|
                    #[trigger] set_view(set).contains(v) ==> exists|m: int| 0 <= m < k && ctx.reading(#[trigger] tokens@[m])->0 == v,
            decreases tokens@.len() - k,
        {
            let anchor: Anchor<usize> = Anchor::new_from_expert(tokens[k]);
            let ghost was = set_view(set);
            match ctx.get(&anchor) {
                Some(v) => {
                    let _ = set_insert(&mut set, *v);
                    proof {
                        assert forall|u: usize| #[trigger] set_view(set).contains(u) implies exists|m: int|
                            0 <= m < k + 1 && ctx.reading(#[trigger] tokens@[m])->0 == u by {
                            if u == *v {
                                assert(ctx.reading(tokens@[k as int])->0 == u);
                            } else {
                                assert(was.contains(u));
                            }
                        }
                    }
                },
                None => {
                    assert(all.contains(tokens@[k as int]));
                    return None;
                },
            }
            k = k + 1;
        }
        proof {
            assert forall|t: AnchorToken| #[trigger] all.contains(t) implies ctx.reading(t) is Some by {
                assert(tokens@.contains(t));
            }
            let f = |t: AnchorToken| ctx.reading(t)->0;
            assert(set_view(set) =~= all.map(f)) by {
                assert forall|v: usize| #[trigger] set_view(set).contains(v) implies all.map(f).contains(v) by {
                    let m = choose|m: int| 0 <= m < k && ctx.reading(#[trigger] tokens@[m])->0 == v;
                    assert(all.contains(tokens@[m]) && f(tokens@[m]) == v);
                }
                assert forall|v: usize| #[trigger] all.map(f).contains(v) implies set_view(set).contains(v) by {
                    let t = choose|t: AnchorToken| all.contains(t) && v == f(t);
                    assert(tokens@.contains(t));
                    let m = choose|m: int| 0 <= m < tokens@.len() && tokens@[m] == t;
                    assert(set_view(set).contains(ctx.reading(tokens@[m])->0));
                }
            }
        }
        Some(set)
    }
}

impl AnchorOutput for OrdSetCollect {
    type Output = OrdSet<usize>;

    type Handed = ();

    open spec fn inv(&self) -> bool {
        !self.dirty ==> self.vals is Some
    }

    open spec fn had(&self) -> bool {
        self.vals is Some
    }

    open spec fn alias(&self) -> Option<AnchorToken> {
        None
    }

    open spec fn own(&self) -> OrdSet<usize> {
        self.vals->0
    }

    open spec fn honest(&self) -> bool {
        true
    }

    open spec fn outside(&self) -> Option<()> {
        None
    }

    open spec fn displays(handed: (), out: OrdSet<usize>) -> bool {
        true
    }

    fn output(&self) -> (out: OutputRef<'_, OrdSet<usize>>) {
        OutputRef::Own(self.vals.as_ref().unwrap())
    }
}

impl<G: Reads<usize>> AnchorInner<G> for OrdSetCollect {
    open spec fn current(&self) -> bool {
        true
    }

    open spec fn holds(&self, told: Map<AnchorToken, G::V>) -> bool {
        !self.dirty ==> covered(set_view(self.anchors), told) && set_view(self.vals->0) == image::<G>(set_view(self.anchors), told)
    }

    open spec fn sound(&self, told: Map<AnchorToken, G::V>) -> bool {
        &&& self.vals is Some
        &&& covered(set_view(self.anchors), told)
        &&& set_view(self.vals->0) == image::<G>(set_view(self.anchors), told)
    }

    open spec fn right(&self, seen: Map<AnchorToken, G::V>) -> bool {
        self.vals is Some ==> covered(set_view(self.anchors), seen) && set_view(self.vals->0) == image::<G>(set_view(self.anchors), seen)
    }

    open spec fn hears(&self, later: &Self, edge: AnchorToken) -> bool {
        *later == (OrdSetCollect { dirty: true, ..*self })
    }

    open spec fn polls(&self, later: &Self, before: &G, after: &G, poll: Poll) -> bool {
        set_step(*self, *later, before, after, poll)
    }

    open spec fn leans_on(&self, told: Map<AnchorToken, G::V>, d: AnchorToken) -> bool {
        set_view(self.anchors).contains(d)
    }

    proof fn less_told(&self, told: Map<AnchorToken, G::V>, less: Map<AnchorToken, G::V>) {
        let tokens = set_view(self.anchors);
        assert forall|t: AnchorToken| #[trigger] tokens.contains(t) implies less.contains_key(t) && told[t] == less[t] by {
            assert(told.contains_key(t));
            assert(less.contains_key(t));
            assert(less.dom().contains(t));
        }
        lemma_image_agreeing::<G>(tokens, told, less);
    }

    proof fn more_told(&self, told: Map<AnchorToken, G::V>, more: Map<AnchorToken, G::V>) {
        let tokens = set_view(self.anchors);
        if covered(tokens, told) {
            assert forall|t: AnchorToken| #[trigger] tokens.contains(t) implies more.contains_key(t) && told[t] == more[t] by {
                assert(told.contains_key(t));
                assert(told.dom().contains(t));
                assert(more.dom().contains(t));
            }
            lemma_image_agreeing::<G>(tokens, told, more);
        }
    }

    proof fn shows_outside(&self) {
    }

    fn dirty(&mut self, edge: AnchorToken) {
        self.dirty = true;
    }

    fn poll_updated(&mut self, ctx: &mut G) -> (poll: Poll) {
        let ghost a = *self;
        let ghost before = *ctx;
        proof {
            before.evolves_reflexive();
        }
        if !self.dirty {
            return Poll::Unchanged;
        }
        let tokens: Vec<AnchorToken> = set_list(&self.anchors);
        let list: Vec<Option<AnchorToken>> = want(&tokens);
        let polls: Vec<Poll> = ask_in_turn(ctx, &list);
        proof {
            before.evolves_keeps(ctx);
            assert(asked_in_turn(&before, ctx, wanted(tokens@), polls@));
        }
        if has_stopped(&polls) {
            assert(set_answered(a, *self, ctx, polls@, Poll::Pending));
            return Poll::Pending;
        }
        if any_lost(&polls) {
            assert(set_answered(a, *self, ctx, polls@, Poll::PendingInvalidToken));
            return Poll::PendingInvalidToken;
        }
        let new: OrdSet<usize> = match self.read(ctx, &tokens) {
            Some(new) => new,
            None => {
                assert(set_answered(a, *self, ctx, polls@, Poll::PendingInvalidToken));
                return Poll::PendingInvalidToken;
            },
        };
        proof {
            if !ctx.degraded() {
                lemma_read_is_told::<G>(&before, ctx, set_view(a.anchors), tokens@, polls@);
            }
        }
        let same: bool = match &self.vals {
            Some(vals) => set_equal(vals, &new),
            None => false,
        };
        if !same {
            self.vals = Some(new);
            assert(set_answered(a, *self, ctx, polls@, Poll::Updated));
            return Poll::Updated;
        }
        self.dirty = false;
        assert(set_answered(a, *self, ctx, polls@, Poll::Unchanged));
        Poll::Unchanged
    }
}

/// Requests for all of `tokens`.
fn want(tokens: &Vec<AnchorToken>) -> (list: Vec<Option<AnchorToken>>)
    ensures
        list@ == wanted(tokens@),
{
    let mut list: Vec<Option<AnchorToken>> = Vec::new();
    let mut k: usize = 0;
    while k < tokens.len()
        invariant
            k <= tokens@.len(),
            list@ =~= wanted(tokens@).take(k as int),
        decreases tokens@.len() - k,
    {
        list.push(Some(tokens[k]));
        k = k + 1;
    }
    list
}

proof fn lemma_image_agreeing<G: Reads<usize>>(tokens: Set<AnchorToken>, a: Map<AnchorToken, G::V>, b: Map<AnchorToken, G::V>)
    requires
        forall|t: AnchorToken| #[trigger] tokens.contains(t) ==> a[t] == b[t],
    ensures
        image::<G>(tokens, a) == image::<G>(tokens, b),
{
    let f = |t: AnchorToken| G::cast(a[t]);
    let g = |t: AnchorToken| G::cast(b[t]);
    assert(tokens.map(f) =~= tokens.map(g)) by {
        assert forall|v: usize| #[trigger] tokens.map(f).contains(v) implies tokens.map(g).contains(v) by {
            let t = choose|t: AnchorToken| tokens.contains(t) && v == f(t);
            assert(tokens.contains(t) && v == g(t));
        }
        assert forall|v: usize| #[trigger] tokens.map(g).contains(v) implies tokens.map(f).contains(v) by {
            let t = choose|t: AnchorToken| tokens.contains(t) && v == g(t);
            assert(tokens.contains(t) && v == f(t));
        }
    }
}

/// What is read once every anchor was asked for is what the context has given.
proof fn lemma_read_is_told<G: Reads<usize>>(before: &G, ctx: &G, all: Set<AnchorToken>, tokens: Seq<AnchorToken>, polls: Seq<Poll>)
    requires
        before.valid(),
        !ctx.degraded(),
        set_items(all, tokens),
        asked_in_turn(before, ctx, wanted(tokens), polls),
        !stopped(polls),
        !unread(all, ctx),
    ensures
        covered(all, ctx.told()),
        read_image(all, ctx) == image::<G>(all, ctx.told()),
{
    before.evolves_keeps(ctx);
    assert forall|t: AnchorToken| #[trigger] all.contains(t) implies ctx.told().contains_key(t) && ctx.reading(t)->0 == G::cast(ctx.told()[t]) by {
        assert(tokens.contains(t));
        let k = choose|k: int| 0 <= k < tokens.len() && tokens[k] == t;
        assert(wanted(tokens)[k] == Some(t));
        assert(!polls[k].waiting());
        assert(!(polls[k] is PendingInvalidToken)) by {
            if polls[k] is PendingInvalidToken {
                assert(lost(polls));
            }
        }
        assert(polls[k].ready());
        assert(ctx.told().dom().contains(t));
        assert(ctx.now().dom().contains(t));
        ctx.reading_is_now(t);
    }
    let f = |t: AnchorToken| ctx.reading(t)->0;
    let g = |t: AnchorToken| G::cast(ctx.told()[t]);
    assert(all.map(f) =~= all.map(g)) by {
        assert forall|v: usize| #[trigger] all.map(f).contains(v) implies all.map(g).contains(v) by {
            let t = choose|t: AnchorToken| all.contains(t) && v == f(t);
            assert(all.contains(t) && v == g(t));
        }
        assert forall|v: usize| #[trigger] all.map(g).contains(v) implies all.map(f).contains(v) by {
            let t = choose|t: AnchorToken| all.contains(t) && v == g(t);
            assert(all.contains(t) && v == f(t));
        }
    }
}

} // verus!
