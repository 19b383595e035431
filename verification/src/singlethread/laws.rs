//! What can be relied upon once an engine has nothing left to do.

use crate::collections::fold::UnorderedFold;
use crate::collections::ord_map_methods::{found_at, selected, selection, Chosen, SelectFold, Selects};
use crate::collections::persistent::{dict_view, Dict};
use crate::expert::ext::either::Either;
use crate::expert::ext::map::{fits, MapAnchor};
use crate::expert::ext::then_clone::ThenClone1;
use crate::expert::ext::then_dedupe::{like_kept, remembered, ThenDedupe};
use crate::expert::ext::thens::{chosen, Then};
use crate::expert::inputs::{Applies, Inputs, Snapshots};
use crate::expert::mixed::OneOf;
use crate::expert::var::VarAnchor;
use crate::expert::var_val_or_anchor::ValOrAnchor;
use crate::expert::{Anchor, AnchorInner, AnchorOutput, AnchorToken, AsVar, Call, Poll, UpdateContext};
use crate::singlethread::access::active_nodes;
use crate::singlethread::context::{
    alive, granted, granted_at, including, lemma_reading_announced, let_go, let_go_at, observed_state, steady, told_wf, EngineContextMut,
    ObservedState,
};
use crate::singlethread::engine::Engine;
use crate::singlethread::graph2::{
    in_range, lemma_necessary_parents_finite, lists, necessary_parents, tidy_at, unneeded, Node,
};
use crate::singlethread::height::raised;
use crate::singlethread::recalc::{caught_up, lawful, node_lawful, same_needs};
use crate::singlethread::stabilize::quiet;
use vstd::prelude::*;

verus! {

/// Where nothing is queued, and node `i` is neither lost nor calculated from a troubled node, what the node has been given
/// is ready, is what there is to read, and stands below it, unless some request closed a cycle.
pub proof fn inputs_are_ready<V, N: AnchorInner<EngineContextMut<N, V>, Output = V>>(
    engine: &Engine<N, V>,
    i: AnchorToken,
    d: AnchorToken,
)
    requires
        engine.ctx.settled(),
        quiet(engine.ctx.graph.nodes@),
        !engine.ctx.ledger@.troubled_below(i),
        i < engine.ctx.graph.nodes@.len(),
        engine.ctx.ledger@.told[i].contains_key(d),
    ensures
        !engine.ctx.ledger@.troubled_below(d),
        alive(engine.ctx.graph.nodes@, d),
        engine.ctx.graph.nodes@[d as int].recalc_state is Ready,
        engine.ctx.graph.nodes@[d as int].anchor is Some,
        !engine.ctx.ledger@.refused ==> engine.ctx.graph.nodes@[d as int].height
            < engine.ctx.graph.nodes@[i as int].height,
        engine.ctx.ledger@.outs.contains_key(d),
        engine.ctx.ledger@.told[i][d] == engine.ctx.ledger@.outs[d],
{
    reveal(EngineContextMut::wf);
    reveal(told_wf);
    reveal(steady);
    let ledger = engine.ctx.ledger@;
    let (among, rank) = choose|among: Set<AnchorToken>, rank: spec_fn(AnchorToken) -> nat| #[trigger]
        ledger.based(i, among, rank);
    assert(among.contains(d));
    assert(ledger.based(d, among, rank));
    assert(!ledger.troubled(d));
    let nodes = engine.ctx.graph.nodes@;
    assert(nodes[d as int].alive);
    let parents = nodes[d as int].clean_parents@;
    let k = choose|k: int| 0 <= k < parents.len() && #[trigger] parents[k] == i;
    assert(nodes[d as int].clean_parents@[k] == i);
}

/// So many numbers below a bound there are at most.
proof fn lemma_below(some: Set<AnchorToken>, bound: nat)
    requires
        some.finite(),
        bound <= usize::MAX,
        forall|t: AnchorToken| #[trigger] some.contains(t) ==> t < bound,
    ensures
        some.len() <= bound,
    decreases bound,
{
    if bound == 0 {
        assert(some =~= Set::empty());
    } else {
        let top = (bound - 1) as usize;
        lemma_below(some.remove(top), (bound - 1) as nat);
    }
}

/// A ready node can be read: `passed` are the nodes that pass its output on.
proof fn lemma_readable<V, N: AnchorInner<EngineContextMut<N, V>, Output = V>>(
    engine: &Engine<N, V>,
    i: AnchorToken,
    among: Set<AnchorToken>,
    rank: spec_fn(AnchorToken) -> nat,
    passed: Set<AnchorToken>,
    fuel: nat,
)
    requires
        engine.ctx.settled(),
        quiet(engine.ctx.graph.nodes@),
        engine.ctx.ledger@.based(i, among, rank),
        alive(engine.ctx.graph.nodes@, i),
        engine.ctx.graph.nodes@[i as int].recalc_state is Ready,
        passed.finite(),
        forall|t: AnchorToken| #[trigger] passed.contains(t) ==> t < engine.ctx.graph.nodes@.len() && rank(i) < rank(t),
        engine.ctx.graph.nodes@.len() <= fuel + passed.len(),
    ensures
        engine.ctx.graph.reading(i, fuel) is Some,
    decreases fuel,
{
    reveal(EngineContextMut::wf);
    reveal(lawful);
    let ctx = engine.ctx;
    let x = ctx.graph.nodes@[i as int];
    assert(x.anchor is Some);
    if x.anchor->0.alias() is Some {
        let t = x.anchor->0.alias()->0;
        assert(node_lawful(x, ctx.ledger@.told[i], ctx.ledger@.seen[i], lists(ctx.dirty_marks@, i as int)));
        assert(ctx.ledger@.told[i].contains_key(t));
        inputs_are_ready(engine, i, t);
        let more = passed.insert(i);
        lemma_below(more, ctx.graph.nodes@.len());
        assert(ctx.ledger@.based(t, among, rank));
        lemma_readable(engine, t, among, rank, more, (fuel - 1) as nat);
    }
}

/// Where nothing is left to do, a ready node shows the output that the ledger has, unless it is lost or was calculated
/// from a troubled node. Its anchor is sound for the outputs that all nodes show, has taken up what was handed to it from
/// outside, and was given nothing but what is shown.
pub proof fn ready_nodes_are_right<V, N: AnchorInner<EngineContextMut<N, V>, Output = V>>(
    engine: &Engine<N, V>,
    i: AnchorToken,
)
    requires
        engine.ctx.settled(),
        !engine.busy(),
        alive(engine.ctx.graph.nodes@, i),
        engine.ctx.graph.nodes@[i as int].recalc_state is Ready,
        !engine.ctx.ledger@.troubled_below(i),
    ensures
        engine.ctx.ledger@.outs.contains_key(i),
        engine.ctx.value(i) == Some(engine.ctx.ledger@.outs[i]),
        engine.ctx.graph.nodes@[i as int].anchor is Some,
        engine.ctx.graph.nodes@[i as int].anchor->0.sound(engine.ctx.ledger@.told[i]),
        engine.ctx.graph.nodes@[i as int].anchor->0.sound(engine.ctx.ledger@.outs),
        engine.ctx.graph.nodes@[i as int].anchor->0.current(),
        engine.ctx.graph.nodes@[i as int].anchor->0.right(engine.ctx.ledger@.seen[i]),
        engine.ctx.ledger@.seen[i].submap_of(engine.ctx.ledger@.outs),
        engine.ctx.ledger@.seen[i].dom().subset_of(engine.ctx.ledger@.told[i].dom()),
{
    reveal(EngineContextMut::wf);
    reveal(lawful);
    let ctx = engine.ctx;
    let nodes = ctx.graph.nodes@;
    let (among, rank) = choose|among: Set<AnchorToken>, rank: spec_fn(AnchorToken) -> nat| #[trigger]
        ctx.ledger@.based(i, among, rank);
    lemma_readable(engine, i, among, rank, Set::empty(), nodes.len());
    assert(node_lawful(nodes[i as int], ctx.ledger@.told[i], ctx.ledger@.seen[i], lists(ctx.dirty_marks@, i as int)));
    assert(!lists(ctx.dirty_marks@, i as int));
    assert(ctx.ledger@.told[i].submap_of(ctx.ledger@.outs)) by {
        assert forall|d: AnchorToken| #[trigger] ctx.ledger@.told[i].dom().contains(d) implies ctx.ledger@.outs.dom().contains(d) && ctx.ledger@.told[i][d] == ctx.ledger@.outs[d] by {
            assert(ctx.ledger@.told[i].contains_key(d));
            inputs_are_ready(engine, i, d);
        }
    }
    nodes[i as int].anchor->0.more_told(ctx.ledger@.told[i], ctx.ledger@.outs);
    assert forall|d: AnchorToken| #[trigger] ctx.ledger@.seen[i].dom().contains(d) implies ctx.ledger@.outs.dom().contains(d) && ctx.ledger@.seen[i][d] == ctx.ledger@.outs[d] by {
        assert(ctx.ledger@.told[i].dom().contains(d));
    }
    lemma_reading_announced(&ctx.graph, ctx.ledger@.outs, i, nodes.len());
}

/// Where nothing is left to do, what is read of a map is a result of its function on what is read of its inputs,
/// as far as `==` goes.
pub proof fn maps_show_their_function<
    V: PartialEq,
    F,
    A: Applies<EngineContextMut<OneOf<B, MapAnchor<A, F, V>>, V>, F, V>,
    B: AnchorInner<EngineContextMut<OneOf<B, MapAnchor<A, F, V>>, V>, Output = V>,
>(engine: &Engine<OneOf<B, MapAnchor<A, F, V>>, V>, i: AnchorToken, map: MapAnchor<A, F, V>)
    requires
        engine.ctx.settled(),
        !engine.busy(),
        !engine.ctx.ledger@.troubled_below(i),
        alive(engine.ctx.graph.nodes@, i),
        engine.ctx.graph.nodes@[i as int].recalc_state is Ready,
        engine.ctx.graph.nodes@[i as int].anchor == Some(OneOf::<B, MapAnchor<A, F, V>>::Second(map)),
    ensures
        forall|k: int|
            0 <= k < map.anchors.tokens().len() ==> engine.ctx.value(#[trigger] map.anchors.tokens()[k]) == Some(
                engine.ctx.ledger@.outs[map.anchors.tokens()[k]],
            ),
        engine.ctx.value(i) is Some,
        fits::<EngineContextMut<OneOf<B, MapAnchor<A, F, V>>, V>, A, F, V>(
            map.anchors,
            map.f,
            engine.ctx.ledger@.outs,
            engine.ctx.value(i)->0,
        ),
{
    ready_nodes_are_right(engine, i);
    let ledger = engine.ctx.ledger@;
    assert(map.output is Some);
    assert(engine.ctx.value(i) == map.output) by {
        reveal(EngineContextMut::wf);
        assert(engine.ctx.graph.nodes@[i as int].anchor->0.alias() is None);
    }
    assert forall|k: int| 0 <= k < map.anchors.tokens().len() implies engine.ctx.value(
        #[trigger] map.anchors.tokens()[k],
    ) == Some(ledger.outs[map.anchors.tokens()[k]]) by {
        let t = map.anchors.tokens()[k];
        assert(ledger.seen[i].contains_key(t));
        assert(ledger.told[i].contains_key(t));
        inputs_are_ready(engine, i, t);
        ready_nodes_are_right(engine, t);
    }
}

/// Where nothing is left to do, what is read of a chooser is what is read of an anchor that its function chooses
/// by what is read of its inputs.
pub proof fn choosers_show_the_choice<
    V,
    F,
    A: Applies<EngineContextMut<OneOf<B, Then<A, V, F>>, V>, F, Anchor<V>>,
    B: AnchorInner<EngineContextMut<OneOf<B, Then<A, V, F>>, V>, Output = V>,
>(engine: &Engine<OneOf<B, Then<A, V, F>>, V>, i: AnchorToken, chooser: Then<A, V, F>)
    requires
        engine.ctx.settled(),
        !engine.busy(),
        !engine.ctx.ledger@.troubled_below(i),
        alive(engine.ctx.graph.nodes@, i),
        engine.ctx.graph.nodes@[i as int].recalc_state is Ready,
        engine.ctx.graph.nodes@[i as int].anchor == Some(OneOf::<B, Then<A, V, F>>::Second(chooser)),
    ensures
        forall|k: int|
            0 <= k < chooser.anchors.tokens().len() ==> engine.ctx.value(#[trigger] chooser.anchors.tokens()[k]) == Some(
                engine.ctx.ledger@.outs[chooser.anchors.tokens()[k]],
            ),
        chooser.f_anchor is Some,
        chosen::<EngineContextMut<OneOf<B, Then<A, V, F>>, V>, A, F, V>(
            chooser.anchors,
            chooser.f,
            engine.ctx.ledger@.outs,
            chooser.f_anchor->0.token,
        ),
        engine.ctx.value(i) is Some,
        engine.ctx.value(i) == engine.ctx.value(chooser.f_anchor->0.token),
{
    ready_nodes_are_right(engine, i);
    let ledger = engine.ctx.ledger@;
    let t = chooser.f_anchor->0.token;
    assert(ledger.told[i].contains_key(t));
    inputs_are_ready(engine, i, t);
    ready_nodes_are_right(engine, t);
    assert(engine.ctx.value(i) == Some(ledger.outs[t])) by {
        reveal(EngineContextMut::wf);
        let fuel = engine.ctx.graph.nodes@.len();
        assert(engine.ctx.graph.reading(i, fuel) == engine.ctx.graph.reading(t, (fuel - 1) as nat));
        lemma_reading_announced(&engine.ctx.graph, ledger.outs, t, (fuel - 1) as nat);
    }
    assert forall|k: int| 0 <= k < chooser.anchors.tokens().len() implies engine.ctx.value(
        #[trigger] chooser.anchors.tokens()[k],
    ) == Some(ledger.outs[chooser.anchors.tokens()[k]]) by {
        let d = chooser.anchors.tokens()[k];
        assert(ledger.told[i].contains_key(d));
        inputs_are_ready(engine, i, d);
        ready_nodes_are_right(engine, d);
    }
}

/// Where nothing is left to do, what is read of an anchor that shows a value or another anchor is what its function makes
/// of what is read of its inputs: that value, or what is read of that anchor.
pub proof fn eithers_show_the_choice<
    V: PartialEq,
    F,
    A: Applies<EngineContextMut<OneOf<B, Either<A, V, F>>, V>, F, ValOrAnchor<V>>,
    B: AnchorInner<EngineContextMut<OneOf<B, Either<A, V, F>>, V>, Output = V>,
>(engine: &Engine<OneOf<B, Either<A, V, F>>, V>, i: AnchorToken, either: Either<A, V, F>)
    requires
        engine.ctx.settled(),
        !engine.busy(),
        !engine.ctx.ledger@.troubled_below(i),
        alive(engine.ctx.graph.nodes@, i),
        engine.ctx.graph.nodes@[i as int].recalc_state is Ready,
        engine.ctx.graph.nodes@[i as int].anchor == Some(OneOf::<B, Either<A, V, F>>::Second(either)),
    ensures
        forall|k: int|
            0 <= k < either.anchors.tokens().len() ==> engine.ctx.value(#[trigger] either.anchors.tokens()[k]) == Some(
                engine.ctx.ledger@.outs[either.anchors.tokens()[k]],
            ),
        either.either_anchor is Some,
        either.anchors.gives(either.f, engine.ctx.ledger@.outs, either.either_anchor->0),
        engine.ctx.value(i) is Some,
        match either.either_anchor->0 {
            ValOrAnchor::Val(v) => engine.ctx.value(i) == Some(v),
            ValOrAnchor::Anchor(anchor) => engine.ctx.value(i) == engine.ctx.value(anchor.token),
        },
{
    ready_nodes_are_right(engine, i);
    let ledger = engine.ctx.ledger@;
    if either.either_anchor->0 is Anchor {
        let t = either.either_anchor->0.target()->0;
        assert(ledger.told[i].contains_key(t));
        inputs_are_ready(engine, i, t);
        ready_nodes_are_right(engine, t);
        assert(engine.ctx.value(i) == Some(ledger.outs[t])) by {
            reveal(EngineContextMut::wf);
            let fuel = engine.ctx.graph.nodes@.len();
            assert(engine.ctx.graph.reading(i, fuel) == engine.ctx.graph.reading(t, (fuel - 1) as nat));
            lemma_reading_announced(&engine.ctx.graph, ledger.outs, t, (fuel - 1) as nat);
        }
    } else {
        assert(engine.ctx.value(i) == Some(either.own())) by {
            reveal(EngineContextMut::wf);
            assert(engine.ctx.graph.nodes@[i as int].anchor->0.alias() is None);
        }
    }
    assert forall|k: int| 0 <= k < either.anchors.tokens().len() implies engine.ctx.value(
        #[trigger] either.anchors.tokens()[k],
    ) == Some(ledger.outs[either.anchors.tokens()[k]]) by {
        let d = either.anchors.tokens()[k];
        assert(ledger.told[i].contains_key(d));
        inputs_are_ready(engine, i, d);
        ready_nodes_are_right(engine, d);
    }
}

/// Where nothing is left to do, what is read of a chooser that compares its inputs first is what is read of an anchor that
/// its function chose by outputs in which `==` finds no difference to what is read of its inputs.
pub proof fn comparing_choosers_show_the_choice<
    V,
    F,
    Vals,
    A: Applies<EngineContextMut<OneOf<B, ThenDedupe<A, Vals, V, F>>, V>, F, Anchor<V>> + Snapshots<
        EngineContextMut<OneOf<B, ThenDedupe<A, Vals, V, F>>, V>,
        Values = Vals,
    >,
    B: AnchorInner<EngineContextMut<OneOf<B, ThenDedupe<A, Vals, V, F>>, V>, Output = V>,
>(engine: &Engine<OneOf<B, ThenDedupe<A, Vals, V, F>>, V>, i: AnchorToken, chooser: ThenDedupe<A, Vals, V, F>)
    requires
        engine.ctx.settled(),
        !engine.busy(),
        !engine.ctx.ledger@.troubled_below(i),
        alive(engine.ctx.graph.nodes@, i),
        engine.ctx.graph.nodes@[i as int].recalc_state is Ready,
        engine.ctx.graph.nodes@[i as int].anchor == Some(OneOf::<B, ThenDedupe<A, Vals, V, F>>::Second(chooser)),
    ensures
        forall|k: int|
            0 <= k < chooser.anchors.tokens().len() ==> engine.ctx.value(#[trigger] chooser.anchors.tokens()[k]) == Some(
                engine.ctx.ledger@.outs[chooser.anchors.tokens()[k]],
            ),
        chooser.f_anchor is Some,
        remembered::<EngineContextMut<OneOf<B, ThenDedupe<A, Vals, V, F>>, V>, A, Vals, V, F>(
            chooser.anchors,
            chooser.f,
            chooser.f_anchor,
            chooser.cached_inputs,
        ),
        like_kept::<EngineContextMut<OneOf<B, ThenDedupe<A, Vals, V, F>>, V>, A, Vals>(
            chooser.anchors,
            chooser.cached_inputs,
            engine.ctx.ledger@.outs,
        ),
        engine.ctx.value(i) is Some,
        engine.ctx.value(i) == engine.ctx.value(chooser.f_anchor->0.token),
{
    ready_nodes_are_right(engine, i);
    let ledger = engine.ctx.ledger@;
    let t = chooser.f_anchor->0.token;
    assert(ledger.told[i].contains_key(t));
    inputs_are_ready(engine, i, t);
    ready_nodes_are_right(engine, t);
    assert(engine.ctx.value(i) == Some(ledger.outs[t])) by {
        reveal(EngineContextMut::wf);
        let fuel = engine.ctx.graph.nodes@.len();
        assert(engine.ctx.graph.reading(i, fuel) == engine.ctx.graph.reading(t, (fuel - 1) as nat));
        lemma_reading_announced(&engine.ctx.graph, ledger.outs, t, (fuel - 1) as nat);
    }
    assert forall|k: int| 0 <= k < chooser.anchors.tokens().len() implies engine.ctx.value(
        #[trigger] chooser.anchors.tokens()[k],
    ) == Some(ledger.outs[chooser.anchors.tokens()[k]]) by {
        let d = chooser.anchors.tokens()[k];
        assert(ledger.told[i].contains_key(d));
        inputs_are_ready(engine, i, d);
        ready_nodes_are_right(engine, d);
    }
}

/// Where nothing is left to do, what is read of an anchor that clones a chosen output is a clone of what is read of an
/// anchor that its function may choose by what is read of its input.
pub proof fn cloners_show_the_choice<
    V: Clone,
    F: FnMut(&V) -> Anchor<V>,
    B: AnchorInner<EngineContextMut<OneOf<B, ThenClone1<V, V, F>>, V>, Output = V>,
>(engine: &Engine<OneOf<B, ThenClone1<V, V, F>>, V>, i: AnchorToken, chooser: ThenClone1<V, V, F>)
    requires
        engine.ctx.settled(),
        !engine.busy(),
        !engine.ctx.ledger@.troubled_below(i),
        alive(engine.ctx.graph.nodes@, i),
        engine.ctx.graph.nodes@[i as int].recalc_state is Ready,
        engine.ctx.graph.nodes@[i as int].anchor == Some(OneOf::<B, ThenClone1<V, V, F>>::Second(chooser)),
    ensures
        engine.ctx.value(chooser.anchor.token) == Some(engine.ctx.ledger@.outs[chooser.anchor.token]),
        chooser.f_anchor is Some,
        chooser.may_choose::<EngineContextMut<OneOf<B, ThenClone1<V, V, F>>, V>>(
            engine.ctx.ledger@.outs,
            chooser.f_anchor->0.token,
        ),
        engine.ctx.value(chooser.f_anchor->0.token) is Some,
        engine.ctx.value(i) is Some,
        cloned(engine.ctx.value(chooser.f_anchor->0.token)->0, engine.ctx.value(i)->0),
{
    ready_nodes_are_right(engine, i);
    let ledger = engine.ctx.ledger@;
    let t = chooser.f_anchor->0.token;
    let d = chooser.anchor.token;
    assert(ledger.told[i].contains_key(t) && ledger.told[i].contains_key(d));
    inputs_are_ready(engine, i, t);
    ready_nodes_are_right(engine, t);
    inputs_are_ready(engine, i, d);
    ready_nodes_are_right(engine, d);
    assert(engine.ctx.value(i) == Some(chooser.cached_output)) by {
        reveal(EngineContextMut::wf);
        assert(engine.ctx.graph.nodes@[i as int].anchor->0.alias() is None);
    }
    assert(ledger.seen[i].dom().contains(t));
    assert(ledger.outs.dom().contains(t));
}

/// Where nothing is left to do, what is read of an anchor that follows a dictionary by a choice of its entries is just that
/// choice, from what is read of the dictionary.
pub proof fn selections_are_shown<
    S: Selects<()>,
    B: AnchorInner<EngineContextMut<OneOf<B, UnorderedFold<Dict, SelectFold<S>, Dict>>, Dict>, Output = Dict>,
>(
    engine: &Engine<OneOf<B, UnorderedFold<Dict, SelectFold<S>, Dict>>, Dict>,
    i: AnchorToken,
    fold: UnorderedFold<Dict, SelectFold<S>, Dict>,
)
    requires
        engine.ctx.settled(),
        !engine.busy(),
        !engine.ctx.ledger@.troubled_below(i),
        alive(engine.ctx.graph.nodes@, i),
        engine.ctx.graph.nodes@[i as int].recalc_state is Ready,
        engine.ctx.graph.nodes@[i as int].anchor == Some(OneOf::<B, UnorderedFold<Dict, SelectFold<S>, Dict>>::Second(fold)),
    ensures
        engine.ctx.value(fold.input.token) is Some,
        engine.ctx.value(i) is Some,
        selection(
            fold.f.select,
            (),
            dict_view(engine.ctx.value(fold.input.token)->0),
            dict_view(engine.ctx.value(i)->0),
        ),
{
    ready_nodes_are_right(engine, i);
    let ledger = engine.ctx.ledger@;
    let t = fold.input.token;
    assert(ledger.seen[i].contains_key(t));
    assert(ledger.seen[i].dom().contains(t));
    assert(ledger.told[i].contains_key(t));
    inputs_are_ready(engine, i, t);
    ready_nodes_are_right(engine, t);
    assert(engine.ctx.value(i) == fold.output) by {
        reveal(EngineContextMut::wf);
        assert(engine.ctx.graph.nodes@[i as int].anchor->0.inv());
        assert(fold.inv());
        assert(engine.ctx.graph.nodes@[i as int].anchor->0.alias() is None);
    }
    assert(ledger.seen[i][t] == ledger.outs[t]);
}

/// After any writes and reads, once nothing is left to do, a filter of a variable shows the dictionary that was last set,
/// with the entries that its function makes a value of and with these values, and nothing else: this holds of every state
/// that an engine comes to, whatever was set and read before.
pub proof fn filters_show_what_was_set<F: FnMut(&usize, &usize) -> Option<usize>>(
    engine: &Engine<OneOf<VarAnchor<Dict>, UnorderedFold<Dict, SelectFold<Chosen<F>>, Dict>>, Dict>,
    i: AnchorToken,
    fold: UnorderedFold<Dict, SelectFold<Chosen<F>>, Dict>,
    variable: VarAnchor<Dict>,
    key: usize,
)
    requires
        engine.ctx.settled(),
        !engine.busy(),
        !engine.ctx.ledger@.troubled_below(i),
        alive(engine.ctx.graph.nodes@, i),
        engine.ctx.graph.nodes@[i as int].recalc_state is Ready,
        engine.ctx.graph.nodes@[i as int].anchor == Some(
            OneOf::<VarAnchor<Dict>, UnorderedFold<Dict, SelectFold<Chosen<F>>, Dict>>::Second(fold),
        ),
        fold.input.token < engine.ctx.graph.nodes@.len(),
        engine.ctx.graph.nodes@[fold.input.token as int].anchor == Some(
            OneOf::<VarAnchor<Dict>, UnorderedFold<Dict, SelectFold<Chosen<F>>, Dict>>::First(variable),
        ),
    ensures
        engine.ctx.value(i) is Some,
        ({
            let set = dict_view(variable.last_set());
            let shown = dict_view(engine.ctx.value(i)->0);
            if set.contains_key(key) {
                call_ensures(fold.f.select.f, (&key, &set[key]), found_at(shown, key))
            } else {
                !shown.contains_key(key)
            }
        }),
{
    selections_are_shown(engine, i, fold);
    reveal(EngineContextMut::wf);
    let t = fold.input.token;
    ready_nodes_are_right(engine, i);
    assert(engine.ctx.ledger@.seen[i].contains_key(t));
    assert(engine.ctx.ledger@.seen[i].dom().contains(t));
    inputs_are_ready(engine, i, t);
    variables_show_what_was_set(engine, t);
    assert(selected(
        fold.f.select,
        (),
        dict_view(engine.ctx.value(t)->0),
        dict_view(engine.ctx.value(i)->0),
        key,
    ));
}

/// What is read of a ready variable shows what was last set, unless it is still marked. That holds whatever has become of
/// other nodes.
pub proof fn variables_show_what_was_set<V, N: AnchorInner<EngineContextMut<N, V>, Output = V>>(
    engine: &Engine<N, V>,
    i: AnchorToken,
)
    requires
        engine.ctx.settled(),
        alive(engine.ctx.graph.nodes@, i),
        engine.ctx.graph.nodes@[i as int].recalc_state is Ready,
        !engine.ctx.dirty_marks@.contains(i),
        engine.ctx.graph.nodes@[i as int].anchor->0.outside() is Some,
    ensures
        engine.ctx.value(i) is Some,
        N::displays(engine.ctx.graph.nodes@[i as int].anchor->0.outside()->0, engine.ctx.value(i)->0),
{
    reveal(EngineContextMut::wf);
    reveal(caught_up);
    let node = engine.ctx.graph.nodes@[i as int];
    assert(node.anchor is Some);
    assert(!lists(engine.ctx.dirty_marks@, i as int));
    assert(node.height < engine.ctx.graph.recalc_queues@.len());
    assert(node.anchor->0.inv() && node.anchor->0.had());
    node.anchor->0.shows_outside();
}

/// What is read of a variable is what was written to it: once something has been set and the variable can be read, what
/// is read shows what was set, whatever was recalculated in between, and whatever has become of other nodes.
pub proof fn reads_give_back_writes<V, N: AnchorInner<EngineContextMut<N, V>, Output = V>>(
    written: &Engine<N, V>,
    read: &Engine<N, V>,
    token: AnchorToken,
    handed: N::Handed,
)
    requires
        alive(written.ctx.graph.nodes@, token),
        written.ctx.graph.nodes@[token as int].anchor is Some,
        written.ctx.graph.nodes@[token as int].anchor->0.outside() == Some(handed),
        same_needs(written.ctx.graph.nodes@, read.ctx.graph.nodes@),
        read.ctx.settled(),
        !read.ctx.dirty_marks@.contains(token),
        read.readable(token),
    ensures
        N::displays(handed, read.ctx.value(token)->0),
{
    assert(read.ctx.graph.nodes@[token as int].alive == written.ctx.graph.nodes@[token as int].alive);
    variables_show_what_was_set(read, token);
}

/// What `get` gives of a variable is a clone of what shows what was last set, unless the variable is still marked.
pub proof fn gets_give_back_writes<V: Clone, N: AnchorInner<EngineContextMut<N, V>, Output = V>>(
    written: &Engine<N, V>,
    read: &Engine<N, V>,
    token: AnchorToken,
    handed: N::Handed,
    out: V,
)
    requires
        alive(written.ctx.graph.nodes@, token),
        written.ctx.graph.nodes@[token as int].anchor is Some,
        written.ctx.graph.nodes@[token as int].anchor->0.outside() == Some(handed),
        written.got(read, token, Ok(out)),
        same_needs(written.ctx.graph.nodes@, read.ctx.graph.nodes@),
        read.ctx.settled(),
        !read.ctx.dirty_marks@.contains(token),
    ensures
        read.readable(token),
        N::displays(handed, read.ctx.value(token)->0),
        cloned(read.ctx.value(token)->0, out),
{
    reads_give_back_writes(written, read, token, handed);
}

/// Where nothing is queued, every node that is observed, or that an observed node was calculated
/// from, is ready, unless it is lost.
pub proof fn needed_nodes_are_ready<V, N: AnchorInner<EngineContextMut<N, V>, Output = V>>(
    engine: &Engine<N, V>,
    i: AnchorToken,
)
    requires
        engine.ctx.settled(),
        quiet(engine.ctx.graph.nodes@),
        !engine.ctx.ledger@.lost.contains(i),
        alive(engine.ctx.graph.nodes@, i),
        !unneeded(engine.ctx.graph.nodes@[i as int]),
    ensures
        engine.ctx.graph.nodes@[i as int].recalc_state is Ready,
{
    reveal(EngineContextMut::wf);
}

/// Where nothing is left to do, every observed node that is not lost, and was calculated from no troubled node, is ready,
/// shows its output, and is right for what it was given, which is what the other nodes show. That holds whatever has become
/// of all other nodes.
pub proof fn observed_nodes_are_right<V, N: AnchorInner<EngineContextMut<N, V>, Output = V>>(
    engine: &Engine<N, V>,
    i: AnchorToken,
)
    requires
        engine.ctx.settled(),
        !engine.busy(),
        !engine.ctx.ledger@.troubled_below(i),
        alive(engine.ctx.graph.nodes@, i),
        engine.ctx.graph.nodes@[i as int].observed,
    ensures
        engine.ctx.graph.nodes@[i as int].recalc_state is Ready,
        engine.ctx.value(i) == Some(engine.ctx.ledger@.outs[i]),
        engine.ctx.graph.nodes@[i as int].anchor is Some,
        engine.ctx.graph.nodes@[i as int].anchor->0.sound(engine.ctx.ledger@.outs),
        engine.ctx.graph.nodes@[i as int].anchor->0.current(),
        engine.ctx.graph.nodes@[i as int].anchor->0.right(engine.ctx.ledger@.seen[i]),
        engine.ctx.ledger@.seen[i].submap_of(engine.ctx.ledger@.outs),
{
    let ledger = engine.ctx.ledger@;
    let (among, rank) = choose|among: Set<AnchorToken>, rank: spec_fn(AnchorToken) -> nat| #[trigger]
        ledger.based(i, among, rank);
    needed_nodes_are_ready(engine, i);
    ready_nodes_are_right(engine, i);
}

/// Unless a request would have closed a cycle, every node stands below the nodes that hear of its
/// changes.
pub proof fn changes_go_up<V, N: AnchorInner<EngineContextMut<N, V>, Output = V>>(
    engine: &Engine<N, V>,
    child: AnchorToken,
    parent: AnchorToken,
)
    requires
        engine.ctx.settled(),
        !engine.ctx.ledger@.refused,
        child < engine.ctx.graph.nodes@.len(),
        engine.ctx.graph.nodes@[child as int].clean_parents@.contains(parent),
    ensures
        parent < engine.ctx.graph.nodes@.len(),
        engine.ctx.graph.nodes@[child as int].height < engine.ctx.graph.nodes@[parent as int].height,
        engine.ctx.graph.nodes@[parent as int].height < engine.ctx.graph.recalc_queues@.len(),
{
    reveal(EngineContextMut::wf);
    let nodes = engine.ctx.graph.nodes@;
    let parents = nodes[child as int].clean_parents@;
    assert(in_range(parents, nodes.len()));
    let k = choose|k: int| 0 <= k < parents.len() && parents[k] == parent;
    assert(nodes[child as int].clean_parents@[k] == parent);
    assert(nodes[parent as int].height < engine.ctx.graph.recalc_queues@.len());
}

/// The figures on the requests that were put down agree with each other, whatever was done to the engine before: as long as
/// no count has come to its end, every request was a new one or took the place of another, the queue was never longer than
/// its greatest length, and no more were tried the last time than in all.
pub proof fn figures_agree<V, N: AnchorInner<EngineContextMut<N, V>, Output = V>>(engine: &Engine<N, V>)
    requires
        engine.ctx.settled(),
    ensures
        ({
            let stats = engine.ctx.pending_stats;
            &&& stats.total_enqueued_raw < u64::MAX ==> stats.total_enqueued_raw == stats.total_enqueued_unique
                + stats.dedup_hits
            &&& stats.last_enqueue_len <= stats.max_queue_len
            &&& stats.total_drained < u64::MAX ==> stats.last_drain_drained <= stats.total_drained
        }),
{
    reveal(EngineContextMut::wf);
}

/// The figures never fall over any series of calls of an engine, each of which lets none of them fall: none is less in state
/// `j` than in an earlier state `i`, and they are the same as long as nothing is done.
pub proof fn figures_never_fall<V, N: AnchorInner<EngineContextMut<N, V>, Output = V>>(
    states: Seq<Engine<N, V>>,
    i: int,
    j: int,
)
    requires
        forall|k: int| 0 <= k < states.len() - 1 ==> #[trigger] states[k].leaves_figures_to(&states[k + 1]),
        0 <= i <= j < states.len(),
    ensures
        states[j].ctx.pending_stats.grown(states[i].ctx.pending_stats),
        i == j ==> states[j].ctx.pending_stats == states[i].ctx.pending_stats,
    decreases j - i,
{
    if i < j {
        figures_never_fall(states, i, j - 1);
        assert(states[j - 1].leaves_figures_to(&states[j - 1 + 1]));
    }
}

/// A node is necessary as often as there are nodes that keep it so, and a node keeps others necessary only while it
/// is observed or necessary itself.
pub proof fn necessity_is_counted<V, N: AnchorInner<EngineContextMut<N, V>, Output = V>>(
    engine: &Engine<N, V>,
    c: AnchorToken,
)
    requires
        engine.ctx.settled(),
        c < engine.ctx.graph.nodes@.len(),
    ensures
        necessary_parents(engine.ctx.graph.nodes@, c as int).finite(),
        engine.ctx.graph.nodes@[c as int].necessary_count == necessary_parents(engine.ctx.graph.nodes@, c as int).len(),
        forall|i: int| #[trigger]
            necessary_parents(engine.ctx.graph.nodes@, c as int).contains(i) ==> !unneeded(engine.ctx.graph.nodes@[i]),
{
    reveal(EngineContextMut::wf);
    let nodes = engine.ctx.graph.nodes@;
    lemma_necessary_parents_finite(nodes, c as int);
    assert forall|i: int| #[trigger] necessary_parents(nodes, c as int).contains(i) implies !unneeded(nodes[i]) by {
        assert(tidy_at(nodes, i));
        assert(lists(nodes[i].necessary_children@, c as int));
    }
}

/// A request that is taken back leaves no necessity behind: a node that has asked for another, which it did not need
/// before, and then says that it does not need it, needs what it did before, as long as anything needs the node itself.
pub proof fn unrequest_undoes_request<N>(
    before: Seq<Node<N>>,
    asked: Seq<Node<N>>,
    after: Seq<Node<N>>,
    node: AnchorToken,
    child: AnchorToken,
)
    requires
        node < before.len(),
        child < before.len(),
        !before[node as int].necessary_children@.contains(child),
        granted(before, asked, node, child, true),
        let_go(asked, after, node, child),
    ensures
        after[child as int].necessary_count <= before[child as int].necessary_count,
        !unneeded(after[node as int]) ==> after[node as int].necessary_children@ == before[node as int].necessary_children@,
{
    let list = before[node as int].necessary_children@;
    assert(granted_at(before, asked, node, child, true, node as int));
    assert(granted_at(before, asked, node, child, true, child as int));
    assert(let_go_at(asked, after, node, child, node as int));
    assert(let_go_at(asked, after, node, child, child as int));
    assert(list.push(child)[list.len() as int] == child);
    assert(list.push(child).contains(child));
    let k = list.push(child).index_of(child);
    assert(list.push(child)[k] == child);
    assert(k == list.len()) by {
        if k < list.len() {
            assert(list[k] == child);
        }
    }
    assert(list.push(child).remove(k) =~= list);
}

/// Whether a node is said to be observed, necessary or neither goes by whether it is observed, and else by whether some node that is
/// itself needed keeps it necessary.
pub proof fn observed_states_say_who_needs_a_node<V, N: AnchorInner<EngineContextMut<N, V>, Output = V>>(
    engine: &Engine<N, V>,
    c: AnchorToken,
)
    requires
        engine.ctx.settled(),
        alive(engine.ctx.graph.nodes@, c),
    ensures
        ({
            let nodes = engine.ctx.graph.nodes@;
            let needed = exists|p: int| #[trigger] necessary_parents(nodes, c as int).contains(p) && !unneeded(nodes[p]);
            match observed_state(nodes[c as int]) {
                ObservedState::Observed => nodes[c as int].observed,
                ObservedState::Necessary => !nodes[c as int].observed && needed,
                ObservedState::Unnecessary => !nodes[c as int].observed && !needed,
            }
        }),
{
    necessity_is_counted(engine, c);
    let parents = necessary_parents(engine.ctx.graph.nodes@, c as int);
    if parents.len() == 0 {
        assert(parents =~= Set::<int>::empty());
    } else {
        assert(parents.contains(parents.choose()));
    }
}

/// The number of active nodes is the number of tokens that still identify an anchor.
pub proof fn active_nodes_are_counted<N>(nodes: Seq<Node<N>>)
    ensures
        Set::new(|i: int| 0 <= i < nodes.len() && nodes[i].alive).finite(),
        active_nodes(nodes) == Set::new(|i: int| 0 <= i < nodes.len() && nodes[i].alive).len(),
    decreases nodes.len(),
{
    let living = Set::new(|i: int| 0 <= i < nodes.len() && nodes[i].alive);
    if nodes.len() == 0 {
        assert(living =~= Set::<int>::empty());
    } else {
        let rest = nodes.drop_last();
        let others = Set::new(|i: int| 0 <= i < rest.len() && rest[i].alive);
        active_nodes_are_counted(rest);
        if nodes.last().alive {
            assert(living =~= others.insert(nodes.len() - 1));
        } else {
            assert(living =~= others);
        }
    }
}

/// A node that asks for one below it hears of its changes from then on. It is answered at once if and only if that node is ready;
/// otherwise that node is queued. If the node asks in earnest, and is itself needed, what it asks for is needed too; and if it asks in
/// passing, nothing becomes needed by that.
pub proof fn requests_bring_what_is_asked_for<V, N: AnchorInner<EngineContextMut<N, V>, Output = V>>(
    before: &EngineContextMut<N, V>,
    after: &EngineContextMut<N, V>,
    child: AnchorToken,
    necessary: bool,
    poll: Poll,
)
    requires
        before.called(after, Call::Request { token: child, necessary, poll }),
        alive(before.graph.nodes@, child),
        before.node < before.graph.nodes@.len(),
        before.graph.nodes@[child as int].height < before.graph.nodes@[before.node as int].height,
    ensures
        poll.ready() <==> before.graph.nodes@[child as int].recalc_state is Ready,
        poll.ready() || poll.waiting(),
        poll.waiting() ==> after.graph.nodes@[child as int].recalc_state is Pending,
        after.graph.nodes@[child as int].clean_parents@.contains(before.node),
        necessary && !unneeded(before.graph.nodes@[before.node as int]) ==> {
            &&& after.graph.nodes@[before.node as int].necessary_children@.contains(child)
            &&& !before.graph.nodes@[before.node as int].necessary_children@.contains(child) ==> !(observed_state(
                after.graph.nodes@[child as int],
            ) is Unnecessary)
        },
        !necessary || unneeded(before.graph.nodes@[before.node as int]) ==> forall|j: int|
            0 <= j < before.graph.nodes@.len() ==> (#[trigger] after.graph.nodes@[j]).necessary_count
                == before.graph.nodes@[j].necessary_count,
{
    let a = before.graph.nodes@;
    let b = after.graph.nodes@;
    let limit = before.graph.recalc_queues@.len();
    let need = necessary && !unneeded(a[before.node as int]);
    let m = choose|m: Seq<Node<N>>| #[trigger] raised(a, m, limit) && granted(m, b, before.node, child, need);
    assert(granted_at(m, b, before.node, child, need, child as int));
    assert(granted_at(m, b, before.node, child, need, before.node as int));
    let heard = m[child as int].clean_parents@;
    assert(including(heard, before.node).contains(before.node)) by {
        if !heard.contains(before.node) {
            assert(heard.push(before.node)[heard.len() as int] == before.node);
        }
    }
    let kept = m[before.node as int].necessary_children@;
    assert(including(kept, child).contains(child)) by {
        if !kept.contains(child) {
            assert(kept.push(child)[kept.len() as int] == child);
        }
    }
    if !need {
        assert forall|j: int| 0 <= j < a.len() implies (#[trigger] b[j]).necessary_count == a[j].necessary_count by {
            assert(granted_at(m, b, before.node, child, need, j));
        }
    }
}

} // verus!
