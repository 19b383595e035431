//! Pictures of a graph, in the DOT language.

use crate::expert::{AnchorInner, AnchorToken};
use crate::singlethread::context::EngineContextMut;
use crate::singlethread::engine::Engine;
use crate::singlethread::graph2::{in_range, links_wf, Node, RecalcState};
use indexmap::IndexSet;
use std::collections::HashMap;
use vstd::prelude::*;
use vstd::string::{StrSliceExecFns, StringExecFns};

verus! {

/// What is known of an anchor for its display.
#[derive(Clone, Debug)]
pub struct AnchorDebugInfo {
    /// What the anchor is called, and the place in the source where it was made.
    pub location: Option<(String, String)>,
    pub type_info: String,
}

impl AnchorDebugInfo {
    pub open spec fn display(self) -> Seq<char> {
        match self.location {
            Some((name, place)) => place@ + " ("@ + name@ + ")"@,
            None => self.type_info@,
        }
    }

    pub fn to_display(&self) -> (text: String)
        ensures
            text@ == self.display(),
    {
        match &self.location {
            Some((name, place)) => {
                let mut text: String = String::from_str(place.as_str());
                text.append(" (");
                text.append(name.as_str());
                text.append(")");
                text
            },
            None => String::from_str(self.type_info.as_str()),
        }
    }

    pub fn _to_string(&self) -> (text: String)
        ensures
            text@ == self.display(),
    {
        self.to_display()
    }
}

pub open spec fn digit(d: nat) -> Seq<char> {
    if d == 0 {
        "0"@
    } else if d == 1 {
        "1"@
    } else if d == 2 {
        "2"@
    } else if d == 3 {
        "3"@
    } else if d == 4 {
        "4"@
    } else if d == 5 {
        "5"@
    } else if d == 6 {
        "6"@
    } else if d == 7 {
        "7"@
    } else if d == 8 {
        "8"@
    } else {
        "9"@
    }
}

/// A number in decimal notation.
pub open spec fn decimal(n: nat) -> Seq<char>
    decreases n,
{
    if n < 10 {
        digit(n)
    } else {
        decimal(n / 10) + digit(n % 10)
    }
}

fn digit_text(d: u64) -> (text: &'static str)
    requires
        d < 10,
    ensures
        text@ == digit(d as nat),
{
    if d == 0 {
        "0"
    } else if d == 1 {
        "1"
    } else if d == 2 {
        "2"
    } else if d == 3 {
        "3"
    } else if d == 4 {
        "4"
    } else if d == 5 {
        "5"
    } else if d == 6 {
        "6"
    } else if d == 7 {
        "7"
    } else if d == 8 {
        "8"
    } else {
        "9"
    }
}

/// Writes a number in decimal notation.
fn append_decimal(out: &mut String, n: u64)
    ensures
        final(out)@ == old(out)@ + decimal(n as nat),
    decreases n,
{
    let ghost was = out@;
    if n >= 10 {
        append_decimal(out, n / 10);
    }
    out.append(digit_text(n % 10));
    assert(out@ =~= was + decimal(n as nat));
}

/// A text with its quotation marks escaped.
pub open spec fn escaped(text: Seq<char>) -> Seq<char>
    decreases text.len(),
{
    if text.len() == 0 {
        Seq::empty()
    } else {
        escaped(text.drop_last()) + (if text.last() == '"' {
            "\\\""@
        } else {
            seq![text.last()]
        })
    }
}

/// Writes a text with its quotation marks escaped.
fn append_escaped(out: &mut String, text: &str)
    ensures
        final(out)@ == old(out)@ + escaped(text@),
{
    let ghost was = out@;
    let len: usize = text.unicode_len();
    let mut k: usize = 0;
    assert(was + escaped(text@.take(0)) =~= was);
    while k < len
        invariant
            k <= len,
            len == text@.len(),
            out@ == was + escaped(text@.take(k as int)),
        decreases len - k,
    {
        let ghost so_far = out@;
        proof {
            assert(text@.take(k as int + 1).drop_last() =~= text@.take(k as int));
            assert(text@.take(k as int + 1).last() == text@[k as int]);
        }
        if text.get_char(k) == '"' {
            out.append("\\\"");
        } else {
            out.append(text.substring_char(k, k + 1));
            assert(text@.subrange(k as int, k as int + 1) =~= seq![text@[k as int]]);
        }
        assert(out@ =~= was + escaped(text@.take(k as int + 1)));
        k = k + 1;
    }
    assert(text@.take(k as int) =~= text@);
}

pub open spec fn state_text(state: RecalcState) -> Seq<char> {
    match state {
        RecalcState::NeedsRecalc => "NeedsRecalc"@,
        RecalcState::Pending => "PendingRecalc"@,
        RecalcState::Ready => "Ready"@,
    }
}

/// The label of an anchor without a name: where it was made and what it is called, or else its type, or
/// else its token.
pub open spec fn default_label(infos: Seq<AnchorDebugInfo>, token: AnchorToken) -> Seq<char> {
    if token < infos.len() {
        match infos[token as int].location {
            Some((name, place)) => place@ + "\n"@ + name@,
            None => infos[token as int].type_info@,
        }
    } else {
        "#"@ + decimal(token as nat)
    }
}

/// The line that shows a node.
pub open spec fn node_line(label: Seq<char>, token: AnchorToken, state: RecalcState) -> Seq<char> {
    let id = decimal(token as nat);
    "  \""@ + id + "\" [label=\""@ + escaped(label) + escaped("\\nslot_id="@ + id + "\\ntoken="@ + id + "\\nrecalc="@ + state_text(state))
        + "\"];\n"@
}

/// The line that shows an edge.
pub open spec fn edge_line(from: AnchorToken, to: AnchorToken, style: Seq<char>) -> Seq<char> {
    "  \""@ + decimal(from as nat) + "\" -> \""@ + decimal(to as nat) + "\" [style="@ + style + "];\n"@
}

/// Names for anchors, by their tokens.
pub open spec fn label_of(infos: Seq<AnchorDebugInfo>, names: Map<AnchorToken, String>, token: AnchorToken) -> Seq<char> {
    if names.contains_key(token) {
        names[token]@
    } else {
        default_label(infos, token)
    }
}

/// The token is that of a node that has not been removed.
pub open spec fn stands<N>(nodes: Seq<Node<N>>, token: AnchorToken) -> bool {
    token < nodes.len() && nodes[token as int].alive
}

/// The lines that show the nodes among `order`.
pub open spec fn node_lines<N>(
    nodes: Seq<Node<N>>,
    infos: Seq<AnchorDebugInfo>,
    names: Map<AnchorToken, String>,
    order: Seq<AnchorToken>,
) -> Seq<char>
    decreases order.len(),
{
    if order.len() == 0 {
        Seq::empty()
    } else {
        let token = order.last();
        let before = node_lines(nodes, infos, names, order.drop_last());
        if stands(nodes, token) {
            before + node_line(label_of(infos, names, token), token, nodes[token as int].recalc_state)
        } else {
            before
        }
    }
}

/// Edges from a node to those that hear of its changes.
pub open spec fn parent_lines(token: AnchorToken, parents: Seq<AnchorToken>) -> Seq<char>
    decreases parents.len(),
{
    if parents.len() == 0 {
        Seq::empty()
    } else {
        parent_lines(token, parents.drop_last()) + edge_line(token, parents.last(), "solid"@)
    }
}

/// Edges to a node from those that it keeps necessary.
pub open spec fn child_lines(token: AnchorToken, children: Seq<AnchorToken>) -> Seq<char>
    decreases children.len(),
{
    if children.len() == 0 {
        Seq::empty()
    } else {
        child_lines(token, children.drop_last()) + edge_line(children.last(), token, "dashed"@)
    }
}

/// The lines that show the edges of the nodes among `order`.
pub open spec fn edge_lines<N>(nodes: Seq<Node<N>>, order: Seq<AnchorToken>) -> Seq<char>
    decreases order.len(),
{
    if order.len() == 0 {
        Seq::empty()
    } else {
        let token = order.last();
        let before = edge_lines(nodes, order.drop_last());
        if stands(nodes, token) {
            before + parent_lines(token, nodes[token as int].clean_parents@) + child_lines(token, nodes[token as int].necessary_children@)
        } else {
            before
        }
    }
}

/// `order` with the tokens of `more` that are new put at the end.
pub open spec fn joined(order: Seq<AnchorToken>, more: Seq<AnchorToken>) -> Seq<AnchorToken>
    decreases more.len(),
{
    if more.len() == 0 {
        order
    } else {
        let before = joined(order, more.drop_last());
        if before.contains(more.last()) {
            before
        } else {
            before.push(more.last())
        }
    }
}

/// The tokens that have been met once the first `n` that were met have been looked at, beginning with
/// `start`: the neighbours of a node are met in their order, those that hear of its changes first.
pub open spec fn met<N>(nodes: Seq<Node<N>>, start: Seq<AnchorToken>, n: nat) -> Seq<AnchorToken>
    decreases n,
{
    if n == 0 {
        start
    } else {
        let before = met(nodes, start, (n - 1) as nat);
        if n <= before.len() && stands(nodes, before[n - 1]) {
            let node = nodes[before[n - 1] as int];
            joined(joined(before, node.clean_parents@), node.necessary_children@)
        } else {
            before
        }
    }
}

/// `order` holds everything that is met on the way from `roots`: everything in it has been looked at.
pub open spec fn walk<N>(nodes: Seq<Node<N>>, roots: Seq<AnchorToken>, order: Seq<AnchorToken>) -> bool {
    order == met(nodes, joined(Seq::empty(), roots), order.len())
}

/// The drawing of what can be met from `roots`, with the tokens that have been handed out.
pub open spec fn plain_dot<N>(
    nodes: Seq<Node<N>>,
    last_deleted: Option<AnchorToken>,
    roots: Seq<AnchorToken>,
    infos: Seq<AnchorDebugInfo>,
    dot: Seq<char>,
) -> bool {
    exists|order: Seq<AnchorToken>| #[trigger]
        walk(nodes, roots, order) && order.no_duplicates() && dot == dot_head() + audit_text(nodes.len(), last_deleted)
            + node_lines(nodes, infos, Map::empty(), order) + edge_lines(nodes, order) + "}\n"@
}

/// The drawing of what can be met from `roots`, with names for some of the anchors.
pub open spec fn named_dot<N>(
    nodes: Seq<Node<N>>,
    roots: Seq<AnchorToken>,
    infos: Seq<AnchorDebugInfo>,
    names: Map<AnchorToken, String>,
    dot: Seq<char>,
) -> bool {
    exists|order: Seq<AnchorToken>| #[trigger]
        walk(nodes, roots, order) && order.no_duplicates() && dot == dot_head() + node_lines(nodes, infos, names, order)
            + edge_lines(nodes, order) + "}\n"@
}

/// Node `i` stands, and `t` hears of its changes or is kept necessary by it.
pub open spec fn neighbour<N>(nodes: Seq<Node<N>>, i: AnchorToken, t: AnchorToken) -> bool {
    stands(nodes, i) && (nodes[i as int].clean_parents@.contains(t) || nodes[i as int].necessary_children@.contains(t))
}

/// `path` leads from one of `roots` to `token`, from a node to one of its neighbours.
pub open spec fn leads_to<N>(nodes: Seq<Node<N>>, roots: Seq<AnchorToken>, path: Seq<AnchorToken>, token: AnchorToken) -> bool {
    &&& path.len() > 0
    &&& roots.contains(path[0])
    &&& path.last() == token
    &&& forall|k: int| 0 <= k < path.len() - 1 ==> #[trigger] steps_on(nodes, path, k)
}

/// Step `k` of `path` goes to a neighbour.
pub open spec fn steps_on<N>(nodes: Seq<Node<N>>, path: Seq<AnchorToken>, k: int) -> bool {
    neighbour(nodes, path[k], path[k + 1])
}

/// How an anchor is displayed: by what is known of it, or else by its token.
pub open spec fn info_text(infos: Seq<AnchorDebugInfo>, token: AnchorToken) -> Seq<char> {
    if token < infos.len() {
        infos[token as int].display()
    } else {
        "#"@ + decimal(token as nat)
    }
}

/// As many spaces as bring `text` to 80 characters.
pub open spec fn padding(text: Seq<char>) -> Seq<char> {
    Seq::new(if text.len() < 80 {
        (80 - text.len()) as nat
    } else {
        0
    }, |k: int| ' ')
}

/// The line that tells of the state of a node.
pub open spec fn state_line<N>(node: Node<N>, name: Seq<char>) -> Seq<char> {
    padding(name) + name + "  "@ + (if node.necessary_count > 0 {
        "necessary"@
    } else {
        "   --    "@
    }) + "  "@ + (if node.observed {
        "observed"@
    } else {
        "   --   "@
    }) + "  "@ + (match node.recalc_state {
        RecalcState::NeedsRecalc => "NeedsRecalc  "@,
        RecalcState::Pending => "PendingRecalc"@,
        RecalcState::Ready => "Ready        "@,
    }) + "\n"@
}

/// The lines that tell of the states of `nodes`.
pub open spec fn state_lines<N>(nodes: Seq<Node<N>>, infos: Seq<AnchorDebugInfo>) -> Seq<char>
    decreases nodes.len(),
{
    if nodes.len() == 0 {
        Seq::empty()
    } else {
        let before = state_lines(nodes.drop_last(), infos);
        if nodes.last().alive {
            before + state_line(nodes.last(), info_text(infos, (nodes.len() - 1) as AnchorToken))
        } else {
            before
        }
    }
}

/// What stands before the nodes and edges.
pub open spec fn dot_head() -> Seq<char> {
    "digraph Anchors {\n"@ + "  rankdir=LR;\n"@ + "  node [shape=box, fontsize=10];\n"@
}

/// The line that says which tokens have been handed out and taken back.
pub open spec fn audit_text(next_token: nat, last_deleted: Option<AnchorToken>) -> Seq<char> {
    "  labelloc=\"t\";\n  label=\"token_next="@ + decimal(next_token) + " | last_deleted="@ + (match last_deleted {
        Some(token) => decimal(token as nat),
        None => "None"@,
    }) + "\";\n"@
}

#[verifier::external_type_specification]
#[verifier::external_body]
#[verifier::reject_recursive_types(T)]
#[verifier::reject_recursive_types(S)]
pub struct ExIndexSet<T, S>(IndexSet<T, S>);

/// A set of tokens, in the order in which they were put in.
pub type Tokens = IndexSet<AnchorToken>;

/// What a set of tokens holds, in its order.
pub uninterp spec fn tokens_view(tokens: Tokens) -> Seq<AnchorToken>;

/// `IndexSet::new`: an empty set.
#[verifier::external_body]
fn tokens_new() -> (tokens: Tokens)
    ensures
        tokens_view(tokens) == Seq::<AnchorToken>::empty(),
{
    IndexSet::new()
}

/// `IndexSet::insert`: puts an item at the end if it is new, and says whether it was.
#[verifier::external_body]
fn tokens_insert(tokens: &mut Tokens, token: AnchorToken) -> (new: bool)
    ensures
        new == !tokens_view(*old(tokens)).contains(token),
        tokens_view(*final(tokens)) == (if new {
            tokens_view(*old(tokens)).push(token)
        } else {
            tokens_view(*old(tokens))
        }),
{
    tokens.insert(token)
}

/// `IndexSet::get_index`: the item at a place in the order, if there is one.
#[verifier::external_body]
fn tokens_at(tokens: &Tokens, k: usize) -> (token: Option<AnchorToken>)
    ensures
        token == (if k < tokens_view(*tokens).len() {
            Some(tokens_view(*tokens)[k as int])
        } else {
            None
        }),
{
    tokens.get_index(k).copied()
}

/// Puts `more` into `tokens`.
fn join(tokens: &mut Tokens, more: &Vec<AnchorToken>)
    ensures
        tokens_view(*final(tokens)) == joined(tokens_view(*old(tokens)), more@),
{
    let ghost was = tokens_view(*tokens);
    let mut k: usize = 0;
    while k < more.len()
        invariant
            k <= more@.len(),
            tokens_view(*tokens) == joined(was, more@.take(k as int)),
        decreases more@.len() - k,
    {
        proof {
            assert(more@.take(k as int + 1).drop_last() =~= more@.take(k as int));
            assert(more@.take(k as int + 1).last() == more@[k as int]);
        }
        let _ = tokens_insert(tokens, more[k]);
        k = k + 1;
    }
    assert(more@.take(k as int) =~= more@);
}

/// Joined tokens are distinct, and come from where they should.
proof fn lemma_joined(order: Seq<AnchorToken>, more: Seq<AnchorToken>, all: Set<AnchorToken>)
    requires
        order.no_duplicates(),
        forall|k: int| 0 <= k < order.len() ==> all.contains(#[trigger] order[k]),
        forall|k: int| 0 <= k < more.len() ==> all.contains(#[trigger] more[k]),
    ensures
        joined(order, more).no_duplicates(),
        forall|k: int| 0 <= k < joined(order, more).len() ==> all.contains(#[trigger] joined(order, more)[k]),
        joined(order, more).len() >= order.len(),
        forall|k: int| 0 <= k < order.len() ==> joined(order, more)[k] == #[trigger] order[k],
    decreases more.len(),
{
    if more.len() > 0 {
        lemma_joined(order, more.drop_last(), all);
        assert(all.contains(more[more.len() - 1]));
    }
}

/// Finds everything that can be met on the way from `roots`.
fn traverse<N>(nodes: &Vec<Node<N>>, roots: &Vec<AnchorToken>) -> (order: Vec<AnchorToken>)
    requires
        links_wf(nodes@),
    ensures
        walk(nodes@, roots@, order@),
        order@.no_duplicates(),
{
    let mut tokens: Tokens = tokens_new();
    join(&mut tokens, roots);
    let ghost start = joined(Seq::<AnchorToken>::empty(), roots@);
    let ghost all = Set::new(|t: AnchorToken| t < nodes@.len()) + roots@.to_set();
    let ghost inner = Set::new(|t: AnchorToken| t < nodes@.len());
    let mut order: Vec<AnchorToken> = Vec::new();
    let mut k: usize = 0;
    let count: usize = nodes.len();
    proof {
        lemma_tokens_finite(count as nat);
        vstd::seq_lib::seq_to_set_is_finite(roots@);
        vstd::set_lib::lemma_len_union(inner, roots@.to_set());
        lemma_joined(Seq::empty(), roots@, all);
        assert(order@ =~= tokens_view(tokens).take(0));
    }
    loop
        invariant
            links_wf(nodes@),
            start == joined(Seq::<AnchorToken>::empty(), roots@),
            all == Set::new(|t: AnchorToken| t < nodes@.len()) + roots@.to_set(),
            all.finite(),
            k <= tokens_view(tokens).len(),
            tokens_view(tokens) == met(nodes@, start, k as nat),
            tokens_view(tokens).no_duplicates(),
            forall|m: int| 0 <= m < tokens_view(tokens).len() ==> all.contains(#[trigger] tokens_view(tokens)[m]),
            order@ == tokens_view(tokens).take(k as int),
        ensures
            k == tokens_view(tokens).len(),
        decreases all.len() - k,
    {
        let ghost was = tokens_view(tokens);
        proof {
            lemma_at_most(was, all);
        }
        let token: AnchorToken = match tokens_at(&tokens, k) {
            Some(token) => token,
            None => {
                break;
            },
        };
        order.push(token);
        if token < nodes.len() && nodes[token].alive {
            proof {
                let node = nodes@[token as int];
                assert(in_range(node.clean_parents@, nodes@.len()));
                assert(in_range(node.necessary_children@, nodes@.len()));
                lemma_joined(was, node.clean_parents@, all);
                lemma_joined(joined(was, node.clean_parents@), node.necessary_children@, all);
            }
            join(&mut tokens, &nodes[token].clean_parents);
            join(&mut tokens, &nodes[token].necessary_children);
        }
        proof {
            let now = tokens_view(tokens);
            assert(order@ =~= now.take(k as int + 1)) by {
                assert forall|m: int| 0 <= m < k + 1 implies order@[m] == now[m] by {
                    assert(now[m] == was[m]);
                }
            }
        }
        k = order.len();
    }
    assert(order@ =~= tokens_view(tokens));
    order
}

proof fn lemma_tokens_finite(n: nat)
    requires
        n <= usize::MAX,
    ensures
        Set::new(|t: AnchorToken| t < n).finite(),
    decreases n,
{
    let set = Set::new(|t: AnchorToken| t < n);
    if n == 0 {
        assert(set =~= Set::<AnchorToken>::empty());
    } else {
        lemma_tokens_finite((n - 1) as nat);
        let less = Set::new(|t: AnchorToken| t < (n - 1) as nat);
        assert(set =~= less.insert((n - 1) as AnchorToken));
    }
}

/// There are no more distinct tokens than there are tokens.
proof fn lemma_at_most(order: Seq<AnchorToken>, all: Set<AnchorToken>)
    requires
        all.finite(),
        order.no_duplicates(),
        forall|k: int| 0 <= k < order.len() ==> all.contains(#[trigger] order[k]),
    ensures
        order.len() <= all.len(),
{
    order.unique_seq_to_set();
    assert(order.to_set().subset_of(all)) by {
        assert forall|t: AnchorToken| order.to_set().contains(t) implies all.contains(t) by {
            let k = choose|k: int| 0 <= k < order.len() && order[k] == t;
            assert(all.contains(order[k]));
        }
    }
    vstd::set_lib::lemma_len_subset(order.to_set(), all);
}

/// Writes the line that shows an edge.
fn append_edge(out: &mut String, from: AnchorToken, to: AnchorToken, style: &str)
    ensures
        final(out)@ == old(out)@ + edge_line(from, to, style@),
{
    let ghost was = out@;
    out.append("  \"");
    append_decimal(out, from as u64);
    out.append("\" -> \"");
    append_decimal(out, to as u64);
    out.append("\" [style=");
    out.append(style);
    out.append("];\n");
    assert(out@ =~= was + edge_line(from, to, style@));
}

/// Writes the line that shows a node.
fn append_node(out: &mut String, label: &str, token: AnchorToken, state: RecalcState)
    ensures
        final(out)@ == old(out)@ + node_line(label@, token, state),
{
    let ghost was = out@;
    let ghost id = decimal(token as nat);
    let mut details: String = String::from_str("\\nslot_id=");
    append_decimal(&mut details, token as u64);
    details.append("\\ntoken=");
    append_decimal(&mut details, token as u64);
    details.append("\\nrecalc=");
    match state {
        RecalcState::NeedsRecalc => {
            details.append("NeedsRecalc");
        },
        RecalcState::Pending => {
            details.append("PendingRecalc");
        },
        RecalcState::Ready => {
            details.append("Ready");
        },
    }
    assert(details@ =~= "\\nslot_id="@ + id + "\\ntoken="@ + id + "\\nrecalc="@ + state_text(state));
    out.append("  \"");
    append_decimal(out, token as u64);
    out.append("\" [label=\"");
    append_escaped(out, label);
    append_escaped(out, details.as_str());
    out.append("\"];\n");
    assert(out@ =~= was + node_line(label@, token, state));
}

/// The label of an anchor without a name.
fn unnamed(infos: &Vec<AnchorDebugInfo>, token: AnchorToken) -> (text: String)
    ensures
        text@ == default_label(infos@, token),
{
    if token < infos.len() {
        match &infos[token].location {
            Some((name, place)) => {
                let mut text: String = String::from_str(place.as_str());
                text.append("\n");
                text.append(name.as_str());
                text
            },
            None => infos[token]._to_string(),
        }
    } else {
        let mut text: String = String::from_str("#");
        append_decimal(&mut text, token as u64);
        text
    }
}

/// How an anchor is displayed.
fn displayed(infos: &Vec<AnchorDebugInfo>, token: AnchorToken) -> (text: String)
    ensures
        text@ == info_text(infos@, token),
{
    if token < infos.len() {
        infos[token]._to_string()
    } else {
        let mut text: String = String::from_str("#");
        append_decimal(&mut text, token as u64);
        text
    }
}

/// Writes the spaces that bring `text` to 80 characters.
fn append_padding(out: &mut String, text: &str)
    ensures
        final(out)@ == old(out)@ + padding(text@),
{
    let ghost was = out@;
    let mut len: usize = text.unicode_len();
    let mut spaces: String = String::new();
    let ghost start = len;
    proof {
        reveal_strlit(" ");
    }
    while len < 80
        invariant
            start == text@.len(),
            start <= len,
            start < 80 ==> len <= 80,
            start >= 80 ==> len == start,
            spaces@ =~= Seq::new((len - start) as nat, |k: int| ' '),
            " "@ =~= seq![' '],
        decreases 80 - len,
    {
        spaces.append(" ");
        len = len + 1;
    }
    assert(spaces@ =~= padding(text@));
    out.append(spaces.as_str());
}

/// Writes the lines that show nodes and edges, and the end.
fn append_body<N>(
    out: &mut String,
    nodes: &Vec<Node<N>>,
    infos: &Vec<AnchorDebugInfo>,
    names: &HashMap<AnchorToken, String>,
    order: &Vec<AnchorToken>,
)
    ensures
        final(out)@ == old(out)@ + node_lines(nodes@, infos@, names@, order@) + edge_lines(nodes@, order@) + "}\n"@,
{
    let ghost was = out@;
    let mut k: usize = 0;
    assert(was + node_lines(nodes@, infos@, names@, order@.take(0)) =~= was);
    while k < order.len()
        invariant
            k <= order@.len(),
            out@ == was + node_lines(nodes@, infos@, names@, order@.take(k as int)),
        decreases order@.len() - k,
    {
        let token: AnchorToken = order[k];
        proof {
            assert(order@.take(k as int + 1).drop_last() =~= order@.take(k as int));
            assert(order@.take(k as int + 1).last() == token);
        }
        if token < nodes.len() && nodes[token].alive {
            let label: String = match names.get(&token) {
                Some(name) => name.clone(),
                None => unnamed(infos, token),
            };
            append_node(out, label.as_str(), token, nodes[token].recalc_state);
        }
        assert(out@ =~= was + node_lines(nodes@, infos@, names@, order@.take(k as int + 1)));
        k = k + 1;
    }
    assert(order@.take(k as int) =~= order@);
    let ghost with_nodes = out@;
    let mut k: usize = 0;
    assert(with_nodes + edge_lines(nodes@, order@.take(0)) =~= with_nodes);
    while k < order.len()
        invariant
            k <= order@.len(),
            out@ == with_nodes + edge_lines(nodes@, order@.take(k as int)),
        decreases order@.len() - k,
    {
        let token: AnchorToken = order[k];
        let ghost so_far = out@;
        proof {
            assert(order@.take(k as int + 1).drop_last() =~= order@.take(k as int));
            assert(order@.take(k as int + 1).last() == token);
        }
        if token < nodes.len() && nodes[token].alive {
            append_edges(out, token, &nodes[token].clean_parents, &nodes[token].necessary_children);
        }
        assert(out@ =~= with_nodes + edge_lines(nodes@, order@.take(k as int + 1)));
        k = k + 1;
    }
    assert(order@.take(k as int) =~= order@);
    out.append("}\n");
}

/// Writes the lines that show the edges of a node.
fn append_edges(out: &mut String, token: AnchorToken, parents: &Vec<AnchorToken>, children: &Vec<AnchorToken>)
    ensures
        final(out)@ == old(out)@ + parent_lines(token, parents@) + child_lines(token, children@),
{
    let ghost was = out@;
    let mut k: usize = 0;
    assert(was + parent_lines(token, parents@.take(0)) =~= was);
    while k < parents.len()
        invariant
            k <= parents@.len(),
            out@ == was + parent_lines(token, parents@.take(k as int)),
        decreases parents@.len() - k,
    {
        proof {
            assert(parents@.take(k as int + 1).drop_last() =~= parents@.take(k as int));
            assert(parents@.take(k as int + 1).last() == parents@[k as int]);
        }
        append_edge(out, token, parents[k], "solid");
        assert(out@ =~= was + parent_lines(token, parents@.take(k as int + 1)));
        k = k + 1;
    }
    assert(parents@.take(k as int) =~= parents@);
    let ghost with_parents = out@;
    let mut k: usize = 0;
    assert(with_parents + child_lines(token, children@.take(0)) =~= with_parents);
    while k < children.len()
        invariant
            k <= children@.len(),
            out@ == with_parents + child_lines(token, children@.take(k as int)),
        decreases children@.len() - k,
    {
        proof {
            assert(children@.take(k as int + 1).drop_last() =~= children@.take(k as int));
            assert(children@.take(k as int + 1).last() == children@[k as int]);
        }
        append_edge(out, children[k], token, "dashed");
        assert(out@ =~= with_parents + child_lines(token, children@.take(k as int + 1)));
        k = k + 1;
    }
    assert(children@.take(k as int) =~= children@);
}

/// Writes the line that tells of the state of a node.
fn append_state<N>(out: &mut String, node: &Node<N>, name: &str)
    ensures
        final(out)@ == old(out)@ + state_line(*node, name@),
{
    let ghost was = out@;
    append_padding(out, name);
    out.append(name);
    out.append("  ");
    if node.necessary_count > 0 {
        out.append("necessary");
    } else {
        out.append("   --    ");
    }
    out.append("  ");
    if node.observed {
        out.append("observed");
    } else {
        out.append("   --   ");
    }
    out.append("  ");
    match node.recalc_state {
        RecalcState::NeedsRecalc => {
            out.append("NeedsRecalc  ");
        },
        RecalcState::Pending => {
            out.append("PendingRecalc");
        },
        RecalcState::Ready => {
            out.append("Ready        ");
        },
    }
    out.append("\n");
    assert(out@ =~= was + state_line(*node, name@));
}

impl<V, N: AnchorInner<EngineContextMut<N, V>, Output = V>> Engine<N, V> {
    /// The part of the graph that can be met on the way from `roots`, in the DOT language. `infos` tells of
    /// every anchor what is known for its display, in the order in which the anchors were mounted.
    pub fn export_dot_from_tokens(&self, roots: &Vec<AnchorToken>, infos: &Vec<AnchorDebugInfo>) -> (dot: String)
        requires
            self.ctx.settled(),
        ensures
            plain_dot(self.ctx.graph.nodes@, self.ctx.graph.last_deleted, roots@, infos@, dot@),
    {
        reveal(EngineContextMut::wf);
        let order: Vec<AnchorToken> = traverse(&self.ctx.graph.nodes, roots);
        let mut out: String = Self::begin_dot();
        let audit = self.token_audit_snapshot();
        out.append("  labelloc=\"t\";\n  label=\"token_next=");
        append_decimal(&mut out, audit.next_token);
        out.append(" | last_deleted=");
        match audit.last_deleted_token {
            Some(token) => {
                append_decimal(&mut out, token);
            },
            None => {
                out.append("None");
            },
        }
        out.append("\";\n");
        assert(out@ =~= dot_head() + audit_text(self.ctx.graph.nodes@.len(), self.ctx.graph.last_deleted));
        let names: HashMap<AnchorToken, String> = HashMap::new();
        append_body(&mut out, &self.ctx.graph.nodes, infos, &names, &order);
        assert(walk(self.ctx.graph.nodes@, roots@, order@));
        assert(names@ =~= Map::<AnchorToken, String>::empty());
        out
    }

    /// The part of the graph that can be met on the way from `roots`, in the DOT language, with names for
    /// some of the anchors.
    pub fn export_dot_from_tokens_with_names(
        &self,
        roots: &Vec<AnchorToken>,
        infos: &Vec<AnchorDebugInfo>,
        names: &HashMap<AnchorToken, String>,
    ) -> (dot: String)
        requires
            self.ctx.settled(),
        ensures
            named_dot(self.ctx.graph.nodes@, roots@, infos@, names@, dot@),
    {
        reveal(EngineContextMut::wf);
        let order: Vec<AnchorToken> = traverse(&self.ctx.graph.nodes, roots);
        let mut out: String = Self::begin_dot();
        append_body(&mut out, &self.ctx.graph.nodes, infos, names, &order);
        assert(walk(self.ctx.graph.nodes@, roots@, order@));
        out
    }

    /// The state of the graph: for every node what it is, whether it is necessary, whether it is observed and
    /// what its output needs.
    pub fn debug_state(&self, infos: &Vec<AnchorDebugInfo>) -> (text: String)
        ensures
            text@ == state_lines(self.ctx.graph.nodes@, infos@),
    {
        let mut out: String = String::new();
        let nodes = &self.ctx.graph.nodes;
        let mut k: usize = 0;
        while k < nodes.len()
            invariant
                k <= nodes@.len(),
                nodes@ == self.ctx.graph.nodes@,
                out@ == state_lines(nodes@.take(k as int), infos@),
            decreases nodes@.len() - k,
        {
            proof {
                assert(nodes@.take(k as int + 1).drop_last() =~= nodes@.take(k as int));
                assert(nodes@.take(k as int + 1).last() == nodes@[k as int]);
            }
            if nodes[k].alive {
                let name: String = displayed(infos, k);
                append_state(&mut out, &nodes[k], name.as_str());
            }
            k = k + 1;
        }
        assert(nodes@.take(k as int) =~= nodes@);
        out
    }

    fn begin_dot() -> (out: String)
        ensures
            out@ == dot_head(),
    {
        let mut out: String = String::from_str("digraph Anchors {\n");
        out.append("  rankdir=LR;\n");
        out.append("  node [shape=box, fontsize=10];\n");
        out
    }

    /// How the anchors that `tokens` identify are displayed: by what is known of them, or by their tokens
    /// where there is no such anchor.
    pub fn describe_tokens(&self, tokens: &Vec<AnchorToken>, infos: &Vec<AnchorDebugInfo>) -> (texts: Vec<String>)
        ensures
            texts@.len() == tokens@.len(),
            forall|k: int|
                0 <= k < tokens@.len() ==> (#[trigger] texts@[k])@ == (if stands(self.ctx.graph.nodes@, tokens@[k]) {
                    info_text(infos@, tokens@[k])
                } else {
                    "#"@ + decimal(tokens@[k] as nat)
                }),
    {
        let mut texts: Vec<String> = Vec::new();
        let mut k: usize = 0;
        while k < tokens.len()
            invariant
                k <= tokens@.len(),
                texts@.len() == k,
                forall|m: int|
                    0 <= m < k ==> (#[trigger] texts@[m])@ == (if stands(self.ctx.graph.nodes@, tokens@[m]) {
                        info_text(infos@, tokens@[m])
                    } else {
                        "#"@ + decimal(tokens@[m] as nat)
                    }),
            decreases tokens@.len() - k,
        {
            let token: AnchorToken = tokens[k];
            let ghost given = texts@;
            if token < self.ctx.graph.nodes.len() && self.ctx.graph.nodes[token].alive {
                texts.push(displayed(infos, token));
            } else {
                let mut text: String = String::from_str("#");
                append_decimal(&mut text, token as u64);
                texts.push(text);
            }
            assert forall|m: int| 0 <= m < k implies texts@[m] == given[m] by {
            }
            k = k + 1;
        }
        texts
    }
}

/// Joining keeps what is there, and adds everything that is joined.
proof fn lemma_joined_grows(order: Seq<AnchorToken>, more: Seq<AnchorToken>)
    ensures
        order.is_prefix_of(joined(order, more)),
        forall|t: AnchorToken| #[trigger] more.contains(t) ==> joined(order, more).contains(t),
    decreases more.len(),
{
    if more.len() > 0 {
        let fewer = more.drop_last();
        lemma_joined_grows(order, fewer);
        let before = joined(order, fewer);
        let after = joined(order, more);
        assert(before.is_prefix_of(after));
        assert forall|t: AnchorToken| #[trigger] more.contains(t) implies after.contains(t) by {
            let k = choose|k: int| 0 <= k < more.len() && more[k] == t;
            if k < fewer.len() {
                assert(fewer[k] == t);
                assert(fewer.contains(t));
                let m = choose|m: int| 0 <= m < before.len() && before[m] == t;
                assert(after[m] == t);
            } else if !before.contains(t) {
                assert(after[before.len() as int] == t);
            }
        }
    }
}

/// What has been met stays met, in its place.
proof fn lemma_met_grows<N>(nodes: Seq<Node<N>>, start: Seq<AnchorToken>, n: nat, m: nat)
    requires
        n <= m,
    ensures
        met(nodes, start, n).is_prefix_of(met(nodes, start, m)),
    decreases m,
{
    if n < m {
        lemma_met_grows(nodes, start, n, (m - 1) as nat);
        let before = met(nodes, start, (m - 1) as nat);
        if m <= before.len() && stands(nodes, before[m - 1]) {
            let node = nodes[before[m - 1] as int];
            lemma_joined_grows(before, node.clean_parents@);
            lemma_joined_grows(joined(before, node.clean_parents@), node.necessary_children@);
        }
    }
}

/// Once everything has been looked at, nothing more is met.
proof fn lemma_met_rests<N>(nodes: Seq<Node<N>>, start: Seq<AnchorToken>, n: nat, m: nat)
    requires
        n <= m,
        met(nodes, start, n).len() <= n,
    ensures
        met(nodes, start, m) == met(nodes, start, n),
    decreases m,
{
    if n < m {
        lemma_met_rests(nodes, start, n, (m - 1) as nat);
    }
}

/// There is one walk from given roots.
pub proof fn one_walk<N>(nodes: Seq<Node<N>>, roots: Seq<AnchorToken>, a: Seq<AnchorToken>, b: Seq<AnchorToken>)
    requires
        walk(nodes, roots, a),
        walk(nodes, roots, b),
    ensures
        a == b,
{
    let start = joined(Seq::empty(), roots);
    if a.len() <= b.len() {
        lemma_met_rests(nodes, start, a.len(), b.len());
    } else {
        lemma_met_rests(nodes, start, b.len(), a.len());
    }
}

/// A walk meets its roots, and with a node all its neighbours.
pub proof fn walk_is_closed<N>(nodes: Seq<Node<N>>, roots: Seq<AnchorToken>, order: Seq<AnchorToken>)
    requires
        walk(nodes, roots, order),
    ensures
        forall|t: AnchorToken| #[trigger] roots.contains(t) ==> order.contains(t),
        forall|i: AnchorToken, t: AnchorToken|
            #![trigger order.contains(i), nodes[i as int].clean_parents@.contains(t)]
            #![trigger order.contains(i), nodes[i as int].necessary_children@.contains(t)]
            order.contains(i) && stands(nodes, i) && (nodes[i as int].clean_parents@.contains(t) || nodes[i as int].necessary_children@.contains(t))
                ==> order.contains(t),
{
    let start = joined(Seq::<AnchorToken>::empty(), roots);
    let n = order.len();
    lemma_joined_grows(Seq::empty(), roots);
    lemma_met_grows(nodes, start, 0, n);
    assert forall|t: AnchorToken| #[trigger] roots.contains(t) implies order.contains(t) by {
        assert(start.contains(t));
        let m = choose|m: int| 0 <= m < start.len() && start[m] == t;
        assert(order[m] == t);
    }
    assert forall|i: AnchorToken, t: AnchorToken|
        #![trigger order.contains(i), nodes[i as int].clean_parents@.contains(t)]
        #![trigger order.contains(i), nodes[i as int].necessary_children@.contains(t)]
        order.contains(i) && stands(nodes, i) && (nodes[i as int].clean_parents@.contains(t) || nodes[i as int].necessary_children@.contains(t)) implies order.contains(t) by {
        let k = choose|k: int| 0 <= k < order.len() && order[k] == i;
        lemma_looked_at(nodes, start, order, k, t);
    }
}

/// What has been joined was there or has been added.
proof fn lemma_joined_only(order: Seq<AnchorToken>, more: Seq<AnchorToken>, t: AnchorToken)
    requires
        joined(order, more).contains(t),
    ensures
        order.contains(t) || more.contains(t),
    decreases more.len(),
{
    if more.len() > 0 {
        let before = joined(order, more.drop_last());
        let after = joined(order, more);
        let k = choose|k: int| 0 <= k < after.len() && after[k] == t;
        if k < before.len() {
            assert(before[k] == t);
            lemma_joined_only(order, more.drop_last(), t);
            if more.drop_last().contains(t) {
                let m = choose|m: int| 0 <= m < more.drop_last().len() && more.drop_last()[m] == t;
                assert(more[m] == t);
            }
        } else {
            assert(more[more.len() - 1] == t);
        }
    }
}

/// What has been met can be reached.
proof fn lemma_met_reached<N>(nodes: Seq<Node<N>>, roots: Seq<AnchorToken>, n: nat, t: AnchorToken) -> (path: Seq<AnchorToken>)
    requires
        met(nodes, joined(Seq::empty(), roots), n).contains(t),
    ensures
        leads_to(nodes, roots, path, t),
    decreases n,
{
    let start = joined(Seq::<AnchorToken>::empty(), roots);
    if n == 0 {
        lemma_joined_only(Seq::empty(), roots, t);
        seq![t]
    } else {
        let before = met(nodes, start, (n - 1) as nat);
        if before.contains(t) {
            lemma_met_reached(nodes, roots, (n - 1) as nat, t)
        } else {
            let i = before[n - 1];
            let node = nodes[i as int];
            let half = joined(before, node.clean_parents@);
            lemma_joined_only(half, node.necessary_children@, t);
            if half.contains(t) {
                lemma_joined_only(before, node.clean_parents@, t);
            }
            assert(before.contains(i));
            let shorter = lemma_met_reached(nodes, roots, (n - 1) as nat, i);
            let path = shorter.push(t);
            assert forall|k: int| 0 <= k < path.len() - 1 implies #[trigger] steps_on(nodes, path, k) by {
                if k < shorter.len() - 1 {
                    assert(steps_on(nodes, shorter, k));
                }
            }
            path
        }
    }
}

/// A walk meets nothing but what can be reached from its roots.
pub proof fn walk_meets_what_is_reached<N>(
    nodes: Seq<Node<N>>,
    roots: Seq<AnchorToken>,
    order: Seq<AnchorToken>,
    token: AnchorToken,
) -> (path: Seq<AnchorToken>)
    requires
        walk(nodes, roots, order),
        order.contains(token),
    ensures
        leads_to(nodes, roots, path, token),
{
    lemma_met_reached(nodes, roots, order.len(), token)
}

proof fn lemma_joined_repeated(order: Seq<AnchorToken>, more: Seq<AnchorToken>, j: int, k: int)
    requires
        0 <= j < k < more.len(),
        more[j] == more[k],
    ensures
        joined(order, more.remove(k)) == joined(order, more),
    decreases more.len(),
{
    let fewer = more.drop_last();
    if k == more.len() - 1 {
        assert(more.remove(k) =~= fewer);
        lemma_joined_grows(order, fewer);
        assert(fewer[j] == more.last());
        assert(fewer.contains(more.last()));
    } else {
        lemma_joined_repeated(order, fewer, j, k);
        assert(more.remove(k).drop_last() =~= fewer.remove(k));
        assert(more.remove(k).last() == more.last());
    }
}

/// A root that is given twice changes nothing.
pub proof fn repeated_roots_change_nothing<N>(
    nodes: Seq<Node<N>>,
    roots: Seq<AnchorToken>,
    order: Seq<AnchorToken>,
    j: int,
    k: int,
)
    requires
        0 <= j < k < roots.len(),
        roots[j] == roots[k],
    ensures
        walk(nodes, roots.remove(k), order) == walk(nodes, roots, order),
{
    lemma_joined_repeated(Seq::empty(), roots, j, k);
}

/// The two sorts of drawings of a graph from the same roots end in the same lines, which show the same edges.
pub proof fn drawings_have_the_same_edges<N>(
    nodes: Seq<Node<N>>,
    last_deleted: Option<AnchorToken>,
    roots: Seq<AnchorToken>,
    infos: Seq<AnchorDebugInfo>,
    names: Map<AnchorToken, String>,
    plain: Seq<char>,
    named: Seq<char>,
) -> (order: Seq<AnchorToken>)
    requires
        plain_dot(nodes, last_deleted, roots, infos, plain),
        named_dot(nodes, roots, infos, names, named),
    ensures
        walk(nodes, roots, order),
        plain == dot_head() + audit_text(nodes.len(), last_deleted) + node_lines(nodes, infos, Map::empty(), order) + edge_lines(
            nodes,
            order,
        ) + "}\n"@,
        named == dot_head() + node_lines(nodes, infos, names, order) + edge_lines(nodes, order) + "}\n"@,
{
    let a = choose|order: Seq<AnchorToken>| #[trigger]
        walk(nodes, roots, order) && order.no_duplicates() && plain == dot_head() + audit_text(nodes.len(), last_deleted)
            + node_lines(nodes, infos, Map::empty(), order) + edge_lines(nodes, order) + "}\n"@;
    let b = choose|order: Seq<AnchorToken>| #[trigger]
        walk(nodes, roots, order) && order.no_duplicates() && named == dot_head() + node_lines(nodes, infos, names, order)
            + edge_lines(nodes, order) + "}\n"@;
    one_walk(nodes, roots, a, b);
    a
}

proof fn lemma_looked_at<N>(nodes: Seq<Node<N>>, start: Seq<AnchorToken>, order: Seq<AnchorToken>, k: int, t: AnchorToken)
    requires
        0 <= k < order.len(),
        order == met(nodes, start, order.len()),
        stands(nodes, order[k]),
        nodes[order[k] as int].clean_parents@.contains(t) || nodes[order[k] as int].necessary_children@.contains(t),
    ensures
        order.contains(t),
{
    let n = order.len();
    let before = met(nodes, start, k as nat);
    let after = met(nodes, start, (k + 1) as nat);
    lemma_met_grows(nodes, start, k as nat, n);
    lemma_met_grows(nodes, start, (k + 1) as nat, n);
    if before.len() <= k {
        lemma_met_rests(nodes, start, k as nat, n);
    }
    assert(before[k] == order[k]);
    let node = nodes[order[k] as int];
    lemma_joined_grows(before, node.clean_parents@);
    lemma_joined_grows(joined(before, node.clean_parents@), node.necessary_children@);
    assert(after.contains(t)) by {
        let half = joined(before, node.clean_parents@);
        if node.clean_parents@.contains(t) {
            assert(half.contains(t));
            let m = choose|m: int| 0 <= m < half.len() && half[m] == t;
            assert(after[m] == t);
        }
    }
    let m = choose|m: int| 0 <= m < after.len() && after[m] == t;
    assert(order[m] == t);
}

} // verus!
