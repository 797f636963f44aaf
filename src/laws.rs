use vstd::prelude::*;

use crate::tree::{
    clamp_index, groups_wf, has_name, is_first_named, merged, reconcile, same_content,
    same_contents, unique_names, GroupView, TreeView,
};

verus! {

proof fn lemma_first_named_unique(s: Seq<GroupView>, name: Seq<char>, a: int, b: int)
    requires
        is_first_named(s, name, a),
        is_first_named(s, name, b),
    ensures
        a == b,
{
    if a < b {
        assert(s[a].name != name);
    }
    if b < a {
        assert(s[b].name != name);
    }
}

/// The group at position `i` of a merge result is the live group reconciled with `incoming`.
proof fn lemma_merged_index(live: Seq<GroupView>, incoming: Seq<GroupView>, i: int)
    requires
        0 <= i < live.len(),
    ensures
        merged(live, incoming).len() >= live.len(),
        merged(live, incoming)[i] == live[i] || merged(live, incoming)[i] == reconcile(
            live[i],
            incoming,
        ),
        same_content(merged(live, incoming)[i], live[i]) && merged(live, incoming)[i].cursor
            == live[i].cursor || merged(live, incoming)[i] == reconcile(live[i], incoming),
{
}

/// Merging a group list with one of identical content changes nothing, cursors included.
pub proof fn lemma_merge_idempotent(live: Seq<GroupView>, incoming: Seq<GroupView>)
    requires
        live.len() == incoming.len(),
        forall|i: int| 0 <= i < live.len() ==> same_content(#[trigger] live[i], incoming[i]),
    ensures
        merged(live, incoming) == live,
{
}

/// A live group whose cursor still indexes the members of its new incarnation keeps it,
/// and takes the new content.
pub proof fn lemma_merge_keeps_cursor(live: Seq<GroupView>, incoming: Seq<GroupView>, i: int, j: int)
    requires
        unique_names(live),
        0 <= i < live.len(),
        is_first_named(incoming, live[i].name, j),
        live[i].cursor < incoming[j].members.len(),
    ensures
        merged(live, incoming)[i].cursor == live[i].cursor,
        same_content(merged(live, incoming)[i], incoming[j]),
{
    let c = choose|c: int| is_first_named(incoming, live[i].name, c);
    lemma_first_named_unique(incoming, live[i].name, c, j);
    lemma_merged_index(live, incoming, i);
    if same_contents(live, incoming) {
        assert(same_content(live[j], incoming[j]));
        assert(live[j].name == live[i].name);
    }
}

/// When a live group shrinks below its cursor, the cursor moves to its last member.
pub proof fn lemma_merge_clamps_cursor(live: Seq<GroupView>, incoming: Seq<GroupView>, i: int, j: int)
    requires
        unique_names(live),
        0 <= i < live.len(),
        live[i].cursor < live[i].members.len(),
        is_first_named(incoming, live[i].name, j),
        0 < incoming[j].members.len() <= live[i].cursor,
    ensures
        merged(live, incoming)[i].cursor == incoming[j].members.len() - 1,
        clamp_index(live[i].cursor, incoming[j].members.len()) == incoming[j].members.len() - 1,
{
    let c = choose|c: int| is_first_named(incoming, live[i].name, c);
    lemma_first_named_unique(incoming, live[i].name, c, j);
    lemma_merged_index(live, incoming, i);
    if same_contents(live, incoming) {
        assert(same_content(live[j], incoming[j]));
        assert(live[j].name == live[i].name);
    }
}

/// An incoming group whose name the live list lacks is appended, as it came.
pub proof fn lemma_merge_appends_new(live: Seq<GroupView>, incoming: Seq<GroupView>, j: int)
    requires
        0 <= j < incoming.len(),
        !has_name(live, incoming[j].name),
    ensures
        merged(live, incoming).contains(incoming[j]),
{
    let pred = |n: GroupView| !has_name(live, n.name);
    if live.len() == incoming.len() && forall|i: int|
        0 <= i < live.len() ==> same_content(#[trigger] live[i], incoming[i]) {
        assert(live[j].name == incoming[j].name);
    }
    incoming.lemma_filter_contains(pred, j);
    let f = incoming.filter(pred);
    let k = choose|k: int| 0 <= k < f.len() && f[k] == incoming[j];
    let mapped = live.map_values(|g: GroupView| reconcile(g, incoming));
    assert((mapped + f)[mapped.len() + k] == incoming[j]);
}

/// No live group is removed: every position keeps its name, and a group that the incoming
/// list does not name stays exactly as it was.
pub proof fn lemma_merge_retains(live: Seq<GroupView>, incoming: Seq<GroupView>, i: int)
    requires
        0 <= i < live.len(),
    ensures
        merged(live, incoming).len() >= live.len(),
        merged(live, incoming)[i].name == live[i].name,
        !has_name(incoming, live[i].name) ==> merged(live, incoming)[i] == live[i],
{
    lemma_merged_index(live, incoming, i);
    if exists|j: int| is_first_named(incoming, live[i].name, j) {
        let c = choose|c: int| is_first_named(incoming, live[i].name, c);
        assert(incoming[c].name == live[i].name);
    }
}

/// Every group kept by a filter comes from the list, and distinct names stay distinct.
proof fn lemma_filter_from(s: Seq<GroupView>, pred: spec_fn(GroupView) -> bool)
    ensures
        forall|i: int| 0 <= i < s.filter(pred).len() ==> s.contains(#[trigger] s.filter(pred)[i]),
        unique_names(s) ==> unique_names(s.filter(pred)),
    decreases s.len(),
{
    reveal(Seq::filter);
    if s.len() > 0 {
        let d = s.drop_last();
        lemma_filter_from(d, pred);
        let f = d.filter(pred);
        assert forall|i: int| 0 <= i < f.len() implies s.contains(#[trigger] f[i]) by {
            let k = choose|k: int| 0 <= k < d.len() && d[k] == f[i];
            assert(s[k] == f[i]);
        }
        if pred(s.last()) {
            let g = f.push(s.last());
            assert forall|i: int| 0 <= i < g.len() implies s.contains(#[trigger] g[i]) by {
                if i < f.len() {
                    assert(g[i] == f[i]);
                } else {
                    assert(g[i] == s[s.len() - 1]);
                }
            }
            if unique_names(s) {
                assert(unique_names(d)) by {
                    assert forall|a: int, b: int| 0 <= a < d.len() && 0 <= b < d.len() && a != b
                        implies (#[trigger] d[a]).name != (#[trigger] d[b]).name by {
                        assert(d[a] == s[a] && d[b] == s[b]);
                    }
                }
                assert forall|a: int, b: int| 0 <= a < g.len() && 0 <= b < g.len() && a != b
                    implies (#[trigger] g[a]).name != (#[trigger] g[b]).name by {
                    if a < f.len() && b < f.len() {
                        assert(g[a] == f[a] && g[b] == f[b]);
                    } else if a < f.len() {
                        let k = choose|k: int| 0 <= k < d.len() && d[k] == f[a];
                        assert(s[k] == f[a] && g[b] == s[s.len() - 1]);
                    } else {
                        let k = choose|k: int| 0 <= k < d.len() && d[k] == f[b];
                        assert(s[k] == f[b] && g[a] == s[s.len() - 1]);
                    }
                }
            }
        } else if unique_names(s) {
            assert forall|a: int, b: int| 0 <= a < d.len() && 0 <= b < d.len() && a != b
                implies (#[trigger] d[a]).name != (#[trigger] d[b]).name by {
                assert(d[a] == s[a] && d[b] == s[b]);
            }
        }
    }
}

/// A merge of well-formed group lists is well formed: names stay unique, and every cursor
/// and active member stays in range.
pub proof fn lemma_merge_preserves_wf(live: Seq<GroupView>, incoming: Seq<GroupView>)
    requires
        groups_wf(live),
        groups_wf(incoming),
    ensures
        groups_wf(merged(live, incoming)),
{
    if !same_contents(live, incoming) {
        let pred = |n: GroupView| !has_name(live, n.name);
        let f = incoming.filter(pred);
        let m = merged(live, incoming);
        let l = live.len();
        lemma_filter_from(incoming, pred);
        assert forall|i: int| 0 <= i < f.len() implies (#[trigger] f[i]).wf() && !has_name(live, f[i].name) by {
            incoming.lemma_filter_pred(pred, i);
            let k = choose|k: int| 0 <= k < incoming.len() && incoming[k] == f[i];
            assert(incoming[k].wf());
        }
        assert forall|i: int| 0 <= i < l implies (#[trigger] m[i]).name == live[i].name && m[i].wf() by {
            lemma_merge_retains(live, incoming, i);
            if exists|j: int| is_first_named(incoming, live[i].name, j) {
                let c = choose|c: int| is_first_named(incoming, live[i].name, c);
                assert(incoming[c].wf());
            }
        }
        assert forall|i: int| l <= i < m.len() implies #[trigger] m[i] == f[i - l] by {}
        assert forall|i: int| 0 <= i < m.len() implies (#[trigger] m[i]).wf() by {
            if i >= l {
                assert(m[i] == f[i - l]);
            }
        }
        assert forall|a: int, b: int| 0 <= a < m.len() && 0 <= b < m.len() && a != b
            implies (#[trigger] m[a]).name != (#[trigger] m[b]).name by {
            if a < l && b < l {
                assert(live[a].name != live[b].name);
            } else if a < l {
                assert(m[b] == f[b - l]);
                assert(!has_name(live, f[b - l].name));
                assert(live[a].name == m[a].name);
            } else if b < l {
                assert(m[a] == f[a - l]);
                assert(!has_name(live, f[a - l].name));
                assert(live[b].name == m[b].name);
            } else {
                assert(m[a] == f[a - l] && m[b] == f[b - l]);
            }
        }
    }
}

/// Merging into a well-formed tree leaves it well formed: its groups grow or stay, and its
/// cursor and mode do not change.
pub proof fn lemma_merge_tree_wf(t: TreeView, incoming: Seq<GroupView>)
    requires
        t.wf(),
        groups_wf(incoming),
    ensures
        (TreeView { groups: merged(t.groups, incoming), ..t }).wf(),
{
    lemma_merge_preserves_wf(t.groups, incoming);
    if t.groups.len() > 0 {
        lemma_merge_retains(t.groups, incoming, 0);
    }
}

} // verus!
