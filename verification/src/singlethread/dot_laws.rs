//! What can be read off the drawings of a graph.

use crate::expert::AnchorToken;
use crate::singlethread::dot::{
    audit_text, child_lines, decimal, digit, edge_line, edge_lines, escaped, info_text, label_of, node_line, node_lines, padding, parent_lines, stands,
    state_line, state_lines, AnchorDebugInfo,
};
use crate::singlethread::graph2::{Node, RecalcState};
use vstd::prelude::*;

verus! {

/// The number that a digit stands for.
pub open spec fn digit_value(c: char) -> int {
    c as int - '0' as int
}

/// The number that a text of digits stands for.
pub open spec fn number_of(text: Seq<char>) -> int
    decreases text.len(),
{
    if text.len() == 0 {
        0
    } else {
        number_of(text.drop_last()) * 10 + digit_value(text.last())
    }
}

proof fn lemma_digit(d: nat)
    requires
        d < 10,
    ensures
        digit(d).len() == 1,
        digit_value(digit(d)[0]) == d,
{
    reveal_strlit("0");
    reveal_strlit("1");
    reveal_strlit("2");
    reveal_strlit("3");
    reveal_strlit("4");
    reveal_strlit("5");
    reveal_strlit("6");
    reveal_strlit("7");
    reveal_strlit("8");
    reveal_strlit("9");
}

/// A number can be read back from what is written for it, so that no two tokens are written alike.
pub proof fn numbers_can_be_read_back(n: nat)
    ensures
        decimal(n).len() > 0,
        number_of(decimal(n)) == n,
        forall|k: int| 0 <= k < decimal(n).len() ==> 0 <= digit_value(#[trigger] decimal(n)[k]) < 10,
    decreases n,
{
    lemma_digit(n % 10);
    let text = decimal(n);
    let last = digit(n % 10);
    if n < 10 {
        assert(text == last);
        assert(text.drop_last() =~= Seq::<char>::empty());
        assert(number_of(text.drop_last()) == 0);
    } else {
        numbers_can_be_read_back(n / 10);
        assert(text == decimal(n / 10) + last);
        assert(text.drop_last() =~= decimal(n / 10));
        assert(text.last() == last[0]);
        assert forall|k: int| 0 <= k < text.len() implies 0 <= digit_value(#[trigger] text[k]) < 10 by {
            if k < decimal(n / 10).len() {
                assert(text[k] == decimal(n / 10)[k]);
            } else {
                assert(text[k] == last[0]);
            }
        }
    }
}

/// A text with the backslashes taken away that stand before quotation marks.
pub open spec fn unescaped(text: Seq<char>) -> Seq<char>
    decreases text.len(),
{
    if text.len() == 0 {
        Seq::empty()
    } else if text.len() >= 2 && text.last() == '"' && text[text.len() - 2] == '\\' {
        unescaped(text.take(text.len() - 2)).push('"')
    } else {
        unescaped(text.drop_last()).push(text.last())
    }
}

/// A label can be read back from what is written for it, and every quotation mark in it stands behind a backslash.
pub proof fn labels_can_be_read_back(text: Seq<char>)
    ensures
        unescaped(escaped(text)) == text,
        forall|k: int| 0 <= k < escaped(text).len() && #[trigger] escaped(text)[k] == '"' ==> k > 0 && escaped(text)[k - 1] == '\\',
    decreases text.len(),
{
    reveal_strlit("\\\"");
    if text.len() == 0 {
        assert(unescaped(escaped(text)) =~= text);
    } else {
        let fewer = text.drop_last();
        let before = escaped(fewer);
        let all = escaped(text);
        labels_can_be_read_back(fewer);
        if text.last() == '"' {
            assert(all == before + "\\\""@);
            assert(all.take(all.len() - 2) =~= before);
            assert(all.last() == '"' && all[all.len() - 2] == '\\');
            assert(unescaped(all) == fewer.push('"'));
        } else {
            assert(all =~= before.push(text.last()));
            assert(all.drop_last() =~= before);
            assert(unescaped(all) == fewer.push(text.last()));
        }
        assert(fewer.push(text.last()) =~= text);
        assert forall|k: int| 0 <= k < all.len() && #[trigger] all[k] == '"' implies k > 0 && all[k - 1] == '\\' by {
            if k < before.len() {
                assert(before[k] == '"');
                assert(before[k - 1] == all[k - 1]);
            } else if text.last() == '"' {
                assert(k == before.len() + 1);
                assert(all[k - 1] == "\\\""@[0]);
            }
        }
    }
}

/// `part` stands in `whole`.
pub open spec fn has_text(whole: Seq<char>, part: Seq<char>) -> bool {
    exists|k: int| 0 <= k <= whole.len() - part.len() && #[trigger] whole.subrange(k, k + part.len()) == part
}

proof fn lemma_has_text_in(a: Seq<char>, b: Seq<char>, part: Seq<char>)
    ensures
        has_text(a, part) ==> has_text(a + b, part),
        has_text(b, part) ==> has_text(a + b, part),
        has_text(part, part),
{
    let whole = a + b;
    if has_text(a, part) {
        let k = choose|k: int| 0 <= k <= a.len() - part.len() && #[trigger] a.subrange(k, k + part.len()) == part;
        assert(whole.subrange(k, k + part.len()) =~= part);
    }
    if has_text(b, part) {
        let k = choose|k: int| 0 <= k <= b.len() - part.len() && #[trigger] b.subrange(k, k + part.len()) == part;
        assert(whole.subrange(a.len() + k, a.len() + k + part.len()) =~= part) by {
            assert forall|m: int| 0 <= m < part.len() implies whole.subrange(a.len() + k, a.len() + k + part.len())[m] == part[m] by {
                assert(b.subrange(k, k + part.len())[m] == part[m]);
            }
        }
    }
    let start: int = 0;
    assert(part.subrange(start, start + part.len()) =~= part);
}

/// The arrow that leads from one token to another.
pub open spec fn arrow(from: AnchorToken, to: AnchorToken) -> Seq<char> {
    "\""@ + decimal(from as nat) + "\" -> \""@ + decimal(to as nat) + "\""@
}

proof fn lemma_edge_line(from: AnchorToken, to: AnchorToken, style: Seq<char>)
    ensures
        has_text(edge_line(from, to, style), arrow(from, to) + " [style="@ + style + "]"@),
{
    reveal_strlit("  \"");
    reveal_strlit("\"");
    reveal_strlit("  ");
    reveal_strlit("\" -> \"");
    reveal_strlit("\" [style=");
    reveal_strlit(" [style=");
    reveal_strlit("]");
    reveal_strlit("];\n");
    reveal_strlit(";\n");
    let part = arrow(from, to) + " [style="@ + style + "]"@;
    assert("  \""@ =~= "  "@ + "\""@);
    assert("\" [style="@ =~= "\""@ + " [style="@);
    assert("];\n"@ =~= "]"@ + ";\n"@);
    assert(edge_line(from, to, style) =~= "  "@ + part + ";\n"@);
    lemma_has_text_in("  "@, part, part);
    lemma_has_text_in("  "@ + part, ";\n"@, part);
}

proof fn lemma_parent_lines(token: AnchorToken, parents: Seq<AnchorToken>, p: AnchorToken)
    requires
        parents.contains(p),
    ensures
        has_text(parent_lines(token, parents), arrow(token, p) + " [style="@ + "solid"@ + "]"@),
    decreases parents.len(),
{
    let part = arrow(token, p) + " [style="@ + "solid"@ + "]"@;
    let before = parent_lines(token, parents.drop_last());
    let line = edge_line(token, parents.last(), "solid"@);
    lemma_has_text_in(before, line, part);
    if parents.last() == p {
        lemma_edge_line(token, p, "solid"@);
    } else {
        let k = choose|k: int| 0 <= k < parents.len() && parents[k] == p;
        assert(parents.drop_last()[k] == p);
        lemma_parent_lines(token, parents.drop_last(), p);
    }
}

proof fn lemma_child_lines(token: AnchorToken, children: Seq<AnchorToken>, c: AnchorToken)
    requires
        children.contains(c),
    ensures
        has_text(child_lines(token, children), arrow(c, token) + " [style="@ + "dashed"@ + "]"@),
    decreases children.len(),
{
    let part = arrow(c, token) + " [style="@ + "dashed"@ + "]"@;
    let before = child_lines(token, children.drop_last());
    let line = edge_line(children.last(), token, "dashed"@);
    lemma_has_text_in(before, line, part);
    if children.last() == c {
        lemma_edge_line(c, token, "dashed"@);
    } else {
        let k = choose|k: int| 0 <= k < children.len() && children[k] == c;
        assert(children.drop_last()[k] == c);
        lemma_child_lines(token, children.drop_last(), c);
    }
}

/// A drawing shows a solid arrow from each of its nodes to every node that hears of its changes, and a dashed one to each of them from
/// every node that it keeps necessary.
pub proof fn drawings_show_every_edge<N>(nodes: Seq<Node<N>>, order: Seq<AnchorToken>, token: AnchorToken, other: AnchorToken)
    requires
        order.contains(token),
        stands(nodes, token),
    ensures
        nodes[token as int].clean_parents@.contains(other) ==> has_text(
            edge_lines(nodes, order),
            arrow(token, other) + " [style="@ + "solid"@ + "]"@,
        ),
        nodes[token as int].necessary_children@.contains(other) ==> has_text(
            edge_lines(nodes, order),
            arrow(other, token) + " [style="@ + "dashed"@ + "]"@,
        ),
    decreases order.len(),
{
    let solid = arrow(token, other) + " [style="@ + "solid"@ + "]"@;
    let dashed = arrow(other, token) + " [style="@ + "dashed"@ + "]"@;
    let last = order.last();
    let before = edge_lines(nodes, order.drop_last());
    if last == token {
        let up = parent_lines(token, nodes[token as int].clean_parents@);
        let down = child_lines(token, nodes[token as int].necessary_children@);
        if nodes[token as int].clean_parents@.contains(other) {
            lemma_parent_lines(token, nodes[token as int].clean_parents@, other);
            lemma_has_text_in(before, up, solid);
            lemma_has_text_in(before + up, down, solid);
        }
        if nodes[token as int].necessary_children@.contains(other) {
            lemma_child_lines(token, nodes[token as int].necessary_children@, other);
            lemma_has_text_in(before + up, down, dashed);
        }
    } else {
        let k = choose|k: int| 0 <= k < order.len() && order[k] == token;
        assert(order.drop_last()[k] == token);
        drawings_show_every_edge(nodes, order.drop_last(), token, other);
        if stands(nodes, last) {
            let up = parent_lines(last, nodes[last as int].clean_parents@);
            let down = child_lines(last, nodes[last as int].necessary_children@);
            lemma_has_text_in(before, up, solid);
            lemma_has_text_in(before + up, down, solid);
            lemma_has_text_in(before, up, dashed);
            lemma_has_text_in(before + up, down, dashed);
        }
    }
}

/// What a drawing says of a node: its token, and its label with the quotation marks escaped.
pub open spec fn introduction(token: AnchorToken, label: Seq<char>) -> Seq<char> {
    "\""@ + decimal(token as nat) + "\" [label=\""@ + escaped(label)
}

/// What a node needs, in a word.
pub open spec fn need(state: RecalcState) -> Seq<char> {
    match state {
        RecalcState::NeedsRecalc => "NeedsRecalc"@,
        RecalcState::Pending => "PendingRecalc"@,
        RecalcState::Ready => "Ready"@,
    }
}

proof fn lemma_escaped_plain(text: Seq<char>)
    requires
        forall|k: int| 0 <= k < text.len() ==> #[trigger] text[k] != '"',
    ensures
        escaped(text) == text,
    decreases text.len(),
{
    if text.len() == 0 {
        assert(escaped(text) =~= text);
    } else {
        lemma_escaped_plain(text.drop_last());
        assert(text.last() != '"');
        assert(escaped(text) =~= text);
    }
}

proof fn lemma_node_line(label: Seq<char>, token: AnchorToken, state: RecalcState)
    ensures
        has_text(node_line(label, token, state), introduction(token, label)),
        has_text(node_line(label, token, state), "recalc="@ + need(state) + "\"]"@),
{
    let id = decimal(token as nat);
    let rest = "\\nslot_id="@ + id + "\\ntoken="@ + id + "\\nrecalc="@ + need(state);
    reveal_strlit("  \"");
    reveal_strlit("  ");
    reveal_strlit("\"");
    reveal_strlit("\\nslot_id=");
    reveal_strlit("\\ntoken=");
    reveal_strlit("\\nrecalc=");
    reveal_strlit("\\n");
    reveal_strlit("recalc=");
    reveal_strlit("NeedsRecalc");
    reveal_strlit("PendingRecalc");
    reveal_strlit("Ready");
    reveal_strlit("\"];\n");
    reveal_strlit("\"]");
    reveal_strlit(";\n");
    numbers_can_be_read_back(token as nat);
    assert forall|k: int| 0 <= k < rest.len() implies #[trigger] rest[k] != '"' by {
        assert forall|m: int| 0 <= m < id.len() implies #[trigger] id[m] != '"' by {
            assert(0 <= digit_value(id[m]) < 10);
        }
    }
    lemma_escaped_plain(rest);
    assert("  \""@ =~= "  "@ + "\""@);
    let line = node_line(label, token, state);
    let part = introduction(token, label);
    assert(line =~= "  "@ + part + (rest + "\"];\n"@));
    lemma_has_text_in("  "@, part, part);
    lemma_has_text_in("  "@ + part, rest + "\"];\n"@, part);
    let end = "recalc="@ + need(state) + "\"]"@;
    let begin = "  "@ + part + "\\nslot_id="@ + id + "\\ntoken="@ + id + "\\n"@;
    assert("\\nrecalc="@ =~= "\\n"@ + "recalc="@);
    assert("\"];\n"@ =~= "\"]"@ + ";\n"@);
    assert(line =~= begin + end + ";\n"@);
    lemma_has_text_in(begin, end, end);
    lemma_has_text_in(begin + end, ";\n"@, end);
}

/// A drawing shows each of its nodes by its token, with the name that it was given, or else with what is known of it; and says what the
/// node needs.
pub proof fn drawings_show_every_node<N>(
    nodes: Seq<Node<N>>,
    infos: Seq<AnchorDebugInfo>,
    names: Map<AnchorToken, String>,
    order: Seq<AnchorToken>,
    token: AnchorToken,
)
    requires
        order.contains(token),
        stands(nodes, token),
    ensures
        names.contains_key(token) ==> has_text(node_lines(nodes, infos, names, order), introduction(token, names[token]@)),
        !names.contains_key(token) && token < infos.len() && infos[token as int].location is None ==> has_text(
            node_lines(nodes, infos, names, order),
            introduction(token, infos[token as int].type_info@),
        ),
        !names.contains_key(token) && token < infos.len() && infos[token as int].location is Some ==> has_text(
            node_lines(nodes, infos, names, order),
            introduction(token, (infos[token as int].location->0).1@ + "\n"@ + (infos[token as int].location->0).0@),
        ),
        !names.contains_key(token) && token >= infos.len() ==> has_text(
            node_lines(nodes, infos, names, order),
            introduction(token, "#"@ + decimal(token as nat)),
        ),
        has_text(node_lines(nodes, infos, names, order), "recalc="@ + need(nodes[token as int].recalc_state) + "\"]"@),
{
    lemma_node_lines(nodes, infos, names, order, token);
}

proof fn lemma_node_lines<N>(
    nodes: Seq<Node<N>>,
    infos: Seq<AnchorDebugInfo>,
    names: Map<AnchorToken, String>,
    order: Seq<AnchorToken>,
    token: AnchorToken,
)
    requires
        order.contains(token),
        stands(nodes, token),
    ensures
        has_text(node_lines(nodes, infos, names, order), introduction(token, label_of(infos, names, token))),
        has_text(node_lines(nodes, infos, names, order), "recalc="@ + need(nodes[token as int].recalc_state) + "\"]"@),
    decreases order.len(),
{
    let label = label_of(infos, names, token);
    let part = introduction(token, label);
    let end = "recalc="@ + need(nodes[token as int].recalc_state) + "\"]"@;
    let last = order.last();
    let before = node_lines(nodes, infos, names, order.drop_last());
    if last == token {
        lemma_node_line(label, token, nodes[token as int].recalc_state);
    } else {
        let k = choose|k: int| 0 <= k < order.len() && order[k] == token;
        assert(order.drop_last()[k] == token);
        lemma_node_lines(nodes, infos, names, order.drop_last(), token);
    }
    if stands(nodes, last) {
        let line = node_line(label_of(infos, names, last), last, nodes[last as int].recalc_state);
        lemma_has_text_in(before, line, part);
        lemma_has_text_in(before, line, end);
    }
}

/// What the state of a graph tells of a node: how it is displayed, whether it is necessary, whether it is observed, and what it needs.
pub open spec fn telling<N>(node: Node<N>, name: Seq<char>) -> Seq<char> {
    name + "  "@ + (if node.necessary_count > 0 {
        "necessary"@
    } else {
        "   --    "@
    }) + "  "@ + (if node.observed {
        "observed"@
    } else {
        "   --   "@
    }) + "  "@ + need(node.recalc_state)
}

/// How a sum of texts can be parted in three.
proof fn lemma_parted(
    a: Seq<char>,
    b: Seq<char>,
    c: Seq<char>,
    d: Seq<char>,
    e: Seq<char>,
    f: Seq<char>,
    blank: Seq<char>,
    end: Seq<char>,
)
    ensures
        a + b + c + d + c + e + c + (f + blank) + end == a + (b + c + d + c + e + c + f) + (blank + end),
{
    assert(a + b + c + d + c + e + c + (f + blank) + end =~= a + (b + c + d + c + e + c + f) + (blank + end));
}

proof fn lemma_state_line<N>(node: Node<N>, name: Seq<char>)
    ensures
        has_text(state_line(node, name), telling(node, name)),
{
    let necessary = if node.necessary_count > 0 {
        "necessary"@
    } else {
        "   --    "@
    };
    let observed = if node.observed {
        "observed"@
    } else {
        "   --   "@
    };
    let blank = match node.recalc_state {
        RecalcState::NeedsRecalc => "  "@,
        RecalcState::Pending => Seq::<char>::empty(),
        RecalcState::Ready => "        "@,
    };
    let needed = match node.recalc_state {
        RecalcState::NeedsRecalc => "NeedsRecalc  "@,
        RecalcState::Pending => "PendingRecalc"@,
        RecalcState::Ready => "Ready        "@,
    };
    assert(needed == need(node.recalc_state) + blank) by {
        reveal_strlit("NeedsRecalc");
        reveal_strlit("NeedsRecalc  ");
        reveal_strlit("Ready");
        reveal_strlit("Ready        ");
        reveal_strlit("  ");
        reveal_strlit("        ");
        assert(needed =~= need(node.recalc_state) + blank);
    }
    let before = padding(name);
    let part = telling(node, name);
    lemma_parted(before, name, "  "@, necessary, observed, need(node.recalc_state), blank, "\n"@);
    assert(state_line(node, name) == before + part + (blank + "\n"@));
    lemma_has_text_in(before, part, part);
    lemma_has_text_in(before + part, blank + "\n"@, part);
}

/// The state of a graph tells of every node that has not been removed: how it is displayed, whether it is necessary, whether it is
/// observed, and what it needs.
pub proof fn states_tell_of_every_node<N>(nodes: Seq<Node<N>>, infos: Seq<AnchorDebugInfo>, token: AnchorToken)
    requires
        stands(nodes, token),
        nodes.len() <= usize::MAX,
    ensures
        has_text(state_lines(nodes, infos), telling(nodes[token as int], info_text(infos, token))),
    decreases nodes.len(),
{
    let node = nodes[token as int];
    let part = telling(node, info_text(infos, token));
    let before = state_lines(nodes.drop_last(), infos);
    if token == nodes.len() - 1 {
        lemma_state_line(node, info_text(infos, token));
        lemma_has_text_in(before, state_line(node, info_text(infos, token)), part);
    } else {
        assert(nodes.drop_last()[token as int] == node);
        states_tell_of_every_node(nodes.drop_last(), infos, token);
        if nodes.last().alive {
            lemma_has_text_in(before, state_line(nodes.last(), info_text(infos, (nodes.len() - 1) as AnchorToken)), part);
        }
    }
}

/// What is known of an anchor is displayed by the place where it was made, with its name in brackets; or by its type if that is not known.
/// An anchor of which nothing is known is displayed by its token.
pub proof fn anchors_are_displayed_by_their_places(infos: Seq<AnchorDebugInfo>, token: AnchorToken)
    ensures
        token < infos.len() ==> match infos[token as int].location {
            Some((name, place)) => {
                &&& info_text(infos, token).take(place@.len() as int) == place@
                &&& has_text(info_text(infos, token), "("@ + name@ + ")"@)
                &&& info_text(infos, token).len() == place@.len() + name@.len() + 3
            },
            None => info_text(infos, token) == infos[token as int].type_info@,
        },
        token >= infos.len() ==> info_text(infos, token) == "#"@ + decimal(token as nat),
{
    if token < infos.len() {
        let info = infos[token as int];
        if info.location is Some {
            let (name, place) = info.location->0;
            reveal_strlit(" (");
            reveal_strlit(" ");
            reveal_strlit("(");
            reveal_strlit(")");
            let part = "("@ + name@ + ")"@;
            assert(" ("@ =~= " "@ + "("@);
            assert(info.display() =~= place@ + " "@ + part);
            lemma_has_text_in(place@ + " "@, part, part);
            assert(info.display().take(place@.len() as int) =~= place@);
        }
    }
}

/// The head of a drawing says which token comes next, and which was taken back last.
pub proof fn drawings_say_which_tokens_are_in_use(next_token: nat, last_deleted: Option<AnchorToken>)
    ensures
        has_text(audit_text(next_token, last_deleted), "token_next="@ + decimal(next_token) + " | "@),
        match last_deleted {
            Some(token) => has_text(audit_text(next_token, last_deleted), "last_deleted="@ + decimal(token as nat) + "\""@),
            None => has_text(audit_text(next_token, last_deleted), "last_deleted="@ + "None"@ + "\""@),
        },
{
    let head = "  labelloc=\"t\";\n  label=\""@;
    let gone = match last_deleted {
        Some(token) => decimal(token as nat),
        None => "None"@,
    };
    reveal_strlit("  labelloc=\"t\";\n  label=\"token_next=");
    reveal_strlit("  labelloc=\"t\";\n  label=\"");
    reveal_strlit("token_next=");
    reveal_strlit(" | last_deleted=");
    reveal_strlit(" | ");
    reveal_strlit("last_deleted=");
    reveal_strlit("\";\n");
    reveal_strlit("\"");
    reveal_strlit(";\n");
    let first = "token_next="@ + decimal(next_token) + " | "@;
    let second = "last_deleted="@ + gone + "\""@;
    assert("  labelloc=\"t\";\n  label=\"token_next="@ =~= head + "token_next="@);
    assert(" | last_deleted="@ =~= " | "@ + "last_deleted="@);
    assert("\";\n"@ =~= "\""@ + ";\n"@);
    assert(audit_text(next_token, last_deleted) =~= head + first + (second + ";\n"@));
    lemma_has_text_in(head, first, first);
    lemma_has_text_in(head + first, second + ";\n"@, first);
    assert(audit_text(next_token, last_deleted) =~= (head + first) + second + ";\n"@);
    lemma_has_text_in(head + first, second, second);
    lemma_has_text_in(head + first + second, ";\n"@, second);
}

} // verus!
