//! What undo promises: reverting a command right after applying it gives
//! back the document it was recorded against.
use vstd::prelude::*;

use crate::commands::{
    clamp_to, move_layer, on_layer_strokes, pair_keys, reinsert, removal_pairs, replace_each,
    sorted_removal_pairs, without_id, without_ids_of, CommandView,
};
use crate::model::{
    first_layer_at, first_stroke_at, has_layer, has_stroke, layer_position,
    lemma_layer_position, lemma_layer_position_cases, lemma_stroke_position_cases,
    stroke_position, with_layer, with_strokes, DocumentView,
    LayerId, LayerView, StrokeView,
};
use crate::editing::{
    collected, found_stroke, lemma_selected_positions, recolored, selected_positions, strokes_at,
    successor_layer_id,
};
use crate::selection::StrokeRef;
use crate::positions::{
    increasing_positions, lemma_filter_all, lemma_filter_insert_rejected,
    lemma_filter_is_without_positions, lemma_remove_insert, lemma_without_positions_at,
    lemma_without_positions_shape, without_positions,
};
use crate::stable_order::{
    item_at_rank, lemma_item_at_rank_unique, lemma_rank_onto, lemma_rank_order,
    stable_rank, stably_sorted,
};

verus! {

/// No two strokes of the sequence share an identifier.
pub open spec fn distinct_stroke_ids(strokes: Seq<StrokeView>) -> bool {
    forall|a: int, b: int| 0 <= a < b < strokes.len() ==> #[trigger] strokes[a].id != #[trigger] strokes[b].id
}

/// A removal of `strokes` from `s`, recorded with `indices`: the strokes of
/// `s` have distinct identifiers, and `strokes[k]` is the stroke of `s` at
/// `indices[k]`, each position named once.
pub open spec fn removal_recorded(s: Seq<StrokeView>, strokes: Seq<StrokeView>, indices: Seq<usize>) -> bool {
    &&& distinct_stroke_ids(s)
    &&& strokes.len() == indices.len()
    &&& forall|k: int| 0 <= k < indices.len() ==> #[trigger] indices[k] < s.len()
    &&& forall|k: int| 0 <= k < indices.len() ==> #[trigger] strokes[k] == s[indices[k] as int]
    &&& forall|a: int, b: int| 0 <= a < b < indices.len() ==> #[trigger] indices[a] != #[trigger] indices[b]
}

/// `x` is the first stroke of `s` with its identifier.
pub open spec fn is_first_of_its_id(s: Seq<StrokeView>, x: StrokeView) -> bool {
    exists|j: int| #[trigger] first_stroke_at(s, x.id, j) && s[j] == x
}

/// A modification of `s` recorded with `before` and `after`: each stroke of
/// `before` is the first stroke of `s` with its identifier, and each stroke of
/// `after` has the identifier of a stroke of `before`.
pub open spec fn modification_recorded(s: Seq<StrokeView>, before: Seq<StrokeView>, after: Seq<StrokeView>) -> bool {
    &&& forall|k: int| 0 <= k < before.len() ==> is_first_of_its_id(s, #[trigger] before[k])
    &&& forall|k: int| 0 <= k < after.len() ==> has_stroke(before, #[trigger] after[k].id)
}

impl CommandView {
    /// The command describes an edit of `d` as the editor records it, so that
    /// reverting it after applying it gives `d` back.
    pub open spec fn undoable_from(self, d: DocumentView) -> bool {
        match self {
            CommandView::AddStroke { layer_id, stroke, index } => match layer_position(d.layers, layer_id) {
                Some(i) => !has_stroke(d.layers[i].strokes, stroke.id),
                None => true,
            },
            CommandView::RemoveStrokes { layer_id, strokes, indices } => match layer_position(d.layers, layer_id) {
                Some(i) => removal_recorded(d.layers[i].strokes, strokes, indices),
                None => true,
            },
            CommandView::ModifyStrokes { layer_id, before, after } => match layer_position(d.layers, layer_id) {
                Some(i) => modification_recorded(d.layers[i].strokes, before, after),
                None => true,
            },
            CommandView::AddLayer { layer, index, previous_active_layer_id, new_active_layer_id } => {
                &&& !has_layer(d.layers, layer.id)
                &&& d.active_layer_id == previous_active_layer_id
            },
            CommandView::RemoveLayer { layer, index, previous_active_layer_id, new_active_layer_id } => {
                &&& index < d.layers.len()
                &&& d.layers[index as int] == layer
                &&& d.active_layer_id == previous_active_layer_id
            },
            CommandView::ReorderLayer { from, to } => from < d.layers.len() && to < d.layers.len(),
            CommandView::SetLayer { before, after } => {
                &&& before.id == after.id
                &&& layer_position(d.layers, before.id) matches Some(i) ==> d.layers[i] == before
            },
            CommandView::SetBackgroundColor { before, after } => d.background_color == before,
        }
    }
}

/// Undo law: reverting a command right after applying it to the document it
/// was recorded against gives that document back.
pub proof fn lemma_revert_undoes_apply(c: CommandView, d: DocumentView)
    requires
        c.undoable_from(d),
    ensures
        c.reverted_from(c.applied_to(d)) == d,
{
    match c {
        CommandView::AddStroke { layer_id, stroke, index } => {
            lemma_add_stroke_undone(layer_id, stroke, index, d);
        },
        CommandView::RemoveStrokes { layer_id, strokes, indices } => {
            lemma_remove_strokes_undone(layer_id, strokes, indices, d);
        },
        CommandView::ModifyStrokes { layer_id, before, after } => {
            lemma_modify_strokes_undone(layer_id, before, after, d);
        },
        CommandView::AddLayer { layer, index, previous_active_layer_id, new_active_layer_id } => {
            let n = d.layers.len() as int;
            let k = clamp_to(index as int, n);
            let p = |l: LayerView| l.id != layer.id;
            assert forall|i: int| 0 <= i < n implies p(#[trigger] d.layers[i]) by {
                if !p(d.layers[i]) {
                    assert(has_layer(d.layers, layer.id));
                }
            }
            lemma_filter_insert_rejected(d.layers, k, layer, p);
            lemma_filter_all(d.layers, p);
            assert(c.reverted_from(c.applied_to(d)) =~= d);
        },
        CommandView::RemoveLayer { layer, index, previous_active_layer_id, new_active_layer_id } => {
            lemma_remove_insert(d.layers, index as int);
            assert(c.reverted_from(c.applied_to(d)) =~= d);
        },
        CommandView::ReorderLayer { from, to } => {
            let l = d.layers;
            let moved = move_layer(l, from as int, to as int);
            assert(moved.remove(to as int) =~= l.remove(from as int));
            assert(moved[to as int] == l[from as int]);
            lemma_remove_insert(l, from as int);
            assert(move_layer(moved, to as int, from as int) =~= l);
            assert(c.reverted_from(c.applied_to(d)) =~= d);
        },
        CommandView::SetLayer { before, after } => {
            lemma_layer_position_cases(d.layers, after.id);
            match layer_position(d.layers, after.id) {
                Some(i) => {
                    let changed = d.layers.update(i, after);
                    assert(first_layer_at(changed, after.id, i));
                    lemma_layer_position(changed, before.id, i);
                    assert(changed.update(i, before) =~= d.layers);
                },
                None => {},
            }
            assert(c.reverted_from(c.applied_to(d)) =~= d);
        },
        CommandView::SetBackgroundColor { before, after } => {
            assert(c.reverted_from(c.applied_to(d)) =~= d);
        },
    }
}

/// Editing the strokes of a layer twice edits them once with the composition,
/// since the edit keeps the layer where it is.
pub proof fn lemma_on_layer_twice(
    d: DocumentView,
    layer_id: LayerId,
    f: spec_fn(Seq<StrokeView>) -> Seq<StrokeView>,
    g: spec_fn(Seq<StrokeView>) -> Seq<StrokeView>,
)
    ensures
        on_layer_strokes(on_layer_strokes(d, layer_id, f), layer_id, g) == match layer_position(d.layers, layer_id) {
            Some(i) => with_layer(d, i, with_strokes(d.layers[i], g(f(d.layers[i].strokes)))),
            None => d,
        },
{
    lemma_layer_position_cases(d.layers, layer_id);
    match layer_position(d.layers, layer_id) {
        Some(i) => {
            let d1 = on_layer_strokes(d, layer_id, f);
            assert(first_layer_at(d1.layers, layer_id, i));
            lemma_layer_position(d1.layers, layer_id, i);
            assert(on_layer_strokes(d1, layer_id, g) =~= with_layer(
                d,
                i,
                with_strokes(d.layers[i], g(f(d.layers[i].strokes))),
            ));
        },
        None => {},
    }
}

/// Undo law for adding a stroke.
pub proof fn lemma_add_stroke_undone(layer_id: LayerId, stroke: StrokeView, index: usize, d: DocumentView)
    requires
        (CommandView::AddStroke { layer_id, stroke, index }).undoable_from(d),
    ensures
        ({
            let c = CommandView::AddStroke { layer_id, stroke, index };
            c.reverted_from(c.applied_to(d)) == d
        }),
{
    let c = CommandView::AddStroke { layer_id, stroke, index };
    let f = |s: Seq<StrokeView>| s.insert(clamp_to(index as int, s.len() as int), stroke);
    let g = |s: Seq<StrokeView>| without_id(s, stroke.id);
    lemma_on_layer_twice(d, layer_id, f, g);
    lemma_layer_position_cases(d.layers, layer_id);
    match layer_position(d.layers, layer_id) {
        Some(i) => {
            let s = d.layers[i].strokes;
            let p = |x: StrokeView| x.id != stroke.id;
            assert forall|j: int| 0 <= j < s.len() implies p(#[trigger] s[j]) by {
                if !p(s[j]) {
                    assert(has_stroke(s, stroke.id));
                }
            }
            lemma_filter_insert_rejected(s, clamp_to(index as int, s.len() as int), stroke, p);
            lemma_filter_all(s, p);
            assert(g(f(s)) == s);
            assert(with_layer(d, i, with_strokes(d.layers[i], s)) =~= d);
        },
        None => {},
    }
}

/// The last stroke of `rs` with identifier `id`, if any.
pub open spec fn last_with_id(rs: Seq<StrokeView>, id: u64) -> Option<StrokeView>
    decreases rs.len(),
{
    if rs.len() == 0 {
        None
    } else if rs.last().id == id {
        Some(rs.last())
    } else {
        last_with_id(rs.drop_last(), id)
    }
}

/// `last_with_id` finds a stroke of `rs` with that identifier exactly when
/// there is one.
pub proof fn lemma_last_with_id(rs: Seq<StrokeView>, id: u64)
    ensures
        last_with_id(rs, id) is Some <==> has_stroke(rs, id),
        last_with_id(rs, id) matches Some(r) ==> r.id == id && exists|k: int| 0 <= k < rs.len() && rs[k] == r,
    decreases rs.len(),
{
    if rs.len() > 0 {
        let rest = rs.drop_last();
        lemma_last_with_id(rest, id);
        if rs.last().id == id {
            assert(rs[rs.len() - 1] == rs.last());
        } else {
            if has_stroke(rs, id) {
                let k = choose|k: int| 0 <= k < rs.len() && #[trigger] rs[k].id == id;
                assert(rest[k].id == id);
            }
            if has_stroke(rest, id) {
                let k = choose|k: int| 0 <= k < rest.len() && #[trigger] rest[k].id == id;
                assert(rs[k].id == id);
            }
            if last_with_id(rest, id) is Some {
                let k = choose|k: int| 0 <= k < rest.len() && rest[k] == last_with_id(rest, id)->0;
                assert(rs[k] == rest[k]);
            }
        }
    }
}

/// Two sequences of strokes with the same identifiers at the same positions.
pub open spec fn same_ids(a: Seq<StrokeView>, b: Seq<StrokeView>) -> bool {
    a.len() == b.len() && forall|p: int| 0 <= p < a.len() ==> #[trigger] a[p].id == #[trigger] b[p].id
}

/// What replacing each of `rs` in turn does to each position: the first
/// stroke of each identifier that some of `rs` has becomes the last of `rs`
/// with that identifier; every other stroke stays.
pub proof fn lemma_replace_each_pointwise(s: Seq<StrokeView>, rs: Seq<StrokeView>)
    ensures
        same_ids(replace_each(s, rs), s),
        forall|p: int|
            0 <= p < s.len() ==> #[trigger] replace_each(s, rs)[p] == if first_stroke_at(s, s[p].id, p)
                && last_with_id(rs, s[p].id) is Some {
                last_with_id(rs, s[p].id)->0
            } else {
                s[p]
            },
    decreases rs.len(),
{
    if rs.len() > 0 {
        let rest = rs.drop_last();
        let r = rs.last();
        lemma_replace_each_pointwise(s, rest);
        let t = replace_each(s, rest);
        assert forall|q: int| 0 <= q < s.len() implies (first_stroke_at(t, r.id, q) <==> first_stroke_at(s, r.id, q)) by {
            if first_stroke_at(t, r.id, q) {
                assert forall|j: int| 0 <= j < q implies #[trigger] s[j].id != r.id by {
                    assert(t[j].id == s[j].id);
                }
            }
            if first_stroke_at(s, r.id, q) {
                assert forall|j: int| 0 <= j < q implies #[trigger] t[j].id != r.id by {
                    assert(t[j].id == s[j].id);
                }
            }
        }
        lemma_stroke_position_cases(t, r.id);
        match stroke_position(t, r.id) {
            Some(q) => {
                let u = t.update(q, r);
                assert(same_ids(u, s));
                assert forall|p: int| 0 <= p < s.len() implies #[trigger] u[p] == if first_stroke_at(s, s[p].id, p)
                    && last_with_id(rs, s[p].id) is Some {
                    last_with_id(rs, s[p].id)->0
                } else {
                    s[p]
                } by {
                    if p == q {
                        assert(first_stroke_at(s, r.id, q));
                    } else if s[p].id == r.id {
                        assert(first_stroke_at(s, r.id, q));
                        if q < p {
                            assert(!first_stroke_at(s, s[p].id, p));
                        } else {
                            assert(s[p].id == r.id);
                            assert(!first_stroke_at(s, r.id, q));
                        }
                    }
                }
                assert(replace_each(s, rs) == u);
            },
            None => {
                assert forall|p: int| 0 <= p < s.len() implies s[p].id != r.id by {
                    if s[p].id == r.id {
                        assert(t[p].id == r.id);
                        assert(has_stroke(t, r.id));
                    }
                }
                assert(replace_each(s, rs) == t);
            },
        }
    }
}

/// Undo law for modifying strokes.
pub proof fn lemma_modify_strokes_undone(
    layer_id: LayerId,
    before: Seq<StrokeView>,
    after: Seq<StrokeView>,
    d: DocumentView,
)
    requires
        (CommandView::ModifyStrokes { layer_id, before, after }).undoable_from(d),
    ensures
        ({
            let c = CommandView::ModifyStrokes { layer_id, before, after };
            c.reverted_from(c.applied_to(d)) == d
        }),
{
    let f = |s: Seq<StrokeView>| replace_each(s, after);
    let g = |s: Seq<StrokeView>| replace_each(s, before);
    lemma_on_layer_twice(d, layer_id, f, g);
    lemma_layer_position_cases(d.layers, layer_id);
    match layer_position(d.layers, layer_id) {
        Some(i) => {
            let s = d.layers[i].strokes;
            let s1 = replace_each(s, after);
            let s2 = replace_each(s1, before);
            lemma_replace_each_pointwise(s, after);
            lemma_replace_each_pointwise(s1, before);
            assert forall|p: int| 0 <= p < s.len() implies #[trigger] s2[p] == s[p] by {
                let id = s[p].id;
                assert(s1[p].id == id);
                let first = first_stroke_at(s, id, p);
                assert(first == first_stroke_at(s1, id, p)) by {
                    if first {
                        assert forall|j: int| 0 <= j < p implies #[trigger] s1[j].id != id by {
                            assert(s1[j].id == s[j].id);
                        }
                    }
                    if first_stroke_at(s1, id, p) {
                        assert forall|j: int| 0 <= j < p implies #[trigger] s[j].id != id by {
                            assert(s1[j].id == s[j].id);
                        }
                    }
                }
                lemma_last_with_id(before, id);
                lemma_last_with_id(after, id);
                if first && last_with_id(before, id) is Some {
                    let b = last_with_id(before, id)->0;
                    let k = choose|k: int| 0 <= k < before.len() && before[k] == b;
                    assert(is_first_of_its_id(s, before[k]));
                    let j = choose|j: int| #[trigger] first_stroke_at(s, before[k].id, j) && s[j] == before[k];
                    if j < p {
                        assert(s[j].id == id);
                    } else if p < j {
                        assert(s[p].id == id);
                    }
                } else if first {
                    if last_with_id(after, id) is Some {
                        let a = last_with_id(after, id)->0;
                        let k = choose|k: int| 0 <= k < after.len() && after[k] == a;
                        assert(has_stroke(before, after[k].id));
                    }
                }
            }
            assert(s2 =~= s);
            assert(with_layer(d, i, with_strokes(d.layers[i], s)) =~= d);
        },
        None => {},
    }
}

/// Putting back, in increasing order of position, strokes removed at
/// increasing positions restores them one by one.
pub proof fn lemma_reinsert_restores(
    s: Seq<StrokeView>,
    ps: Seq<int>,
    sorted: Seq<(usize, StrokeView)>,
    j: int,
)
    requires
        increasing_positions(ps, s.len() as int),
        sorted.len() == ps.len(),
        forall|t: int| 0 <= t < sorted.len() ==> #[trigger] sorted[t].0 as int == ps[t] && sorted[t].1 == s[ps[t]],
        0 <= j <= ps.len(),
    ensures
        reinsert(without_positions(s, ps, 0), sorted.take(j)) == without_positions(s, ps, j),
    decreases j,
{
    if j > 0 {
        lemma_reinsert_restores(s, ps, sorted, j - 1);
        assert(sorted.take(j).drop_last() =~= sorted.take(j - 1));
        lemma_without_positions_at(s, ps, j - 1);
        let w = without_positions(s, ps, j);
        assert(sorted[j - 1].0 as int == ps[j - 1]);
        lemma_remove_insert(w, ps[j - 1]);
    } else {
        assert(sorted.take(0) =~= Seq::<(usize, StrokeView)>::empty());
    }
}

/// Undo law for removing strokes.
pub proof fn lemma_remove_strokes_undone(
    layer_id: LayerId,
    strokes: Seq<StrokeView>,
    indices: Seq<usize>,
    d: DocumentView,
)
    requires
        (CommandView::RemoveStrokes { layer_id, strokes, indices }).undoable_from(d),
    ensures
        ({
            let c = CommandView::RemoveStrokes { layer_id, strokes, indices };
            c.reverted_from(c.applied_to(d)) == d
        }),
{
    let f = |s: Seq<StrokeView>| without_ids_of(s, strokes);
    let g = |s: Seq<StrokeView>| reinsert(s, sorted_removal_pairs(indices, strokes));
    lemma_on_layer_twice(d, layer_id, f, g);
    lemma_layer_position_cases(d.layers, layer_id);
    match layer_position(d.layers, layer_id) {
        Some(i) => {
            let s = d.layers[i].strokes;
            let n = indices.len() as int;
            let pairs = removal_pairs(indices, strokes);
            let keys = pair_keys(pairs);
            assert(keys =~= indices);
            let sorted = sorted_removal_pairs(indices, strokes);
            assert(sorted == stably_sorted(pairs, keys));
            let ps = Seq::new(n as nat, |t: int| indices[item_at_rank(keys, t)] as int);
            assert forall|t: int| 0 <= t < n implies 0 <= #[trigger] item_at_rank(keys, t) < n
                && stable_rank(keys, item_at_rank(keys, t)) == t by {
                lemma_rank_onto(keys, t);
            }
            assert(increasing_positions(ps, s.len() as int)) by {
                assert forall|a: int, b: int| 0 <= a < b < ps.len() implies #[trigger] ps[a] < #[trigger] ps[b] by {
                    let x = item_at_rank(keys, a);
                    let y = item_at_rank(keys, b);
                    lemma_rank_order(keys, x, y);
                    lemma_rank_order(keys, y, x);
                    if x < y {
                        assert(indices[x] != indices[y]);
                    } else if y < x {
                        assert(indices[y] != indices[x]);
                    }
                }
            }
            assert forall|t: int| 0 <= t < sorted.len() implies #[trigger] sorted[t].0 as int == ps[t]
                && sorted[t].1 == s[ps[t]] by {
                let x = item_at_rank(keys, t);
                assert(strokes[x] == s[indices[x] as int]);
            }
            let p = |x: StrokeView| !has_stroke(strokes, x.id);
            assert forall|q: int| 0 <= q < s.len() implies (p(#[trigger] s[q]) <==> !ps.contains(q)) by {
                if ps.contains(q) {
                    let t = choose|t: int| 0 <= t < ps.len() && ps[t] == q;
                    let x = item_at_rank(keys, t);
                    assert(strokes[x] == s[indices[x] as int]);
                    assert(strokes[x].id == s[q].id);
                }
                if !p(s[q]) {
                    let k = choose|k: int| 0 <= k < strokes.len() && #[trigger] strokes[k].id == s[q].id;
                    assert(strokes[k] == s[indices[k] as int]);
                    if (indices[k] as int) < q {
                        assert(s[indices[k] as int].id != s[q].id);
                    } else if q < (indices[k] as int) {
                        assert(s[q].id != s[indices[k] as int].id);
                    }
                    lemma_rank_order(keys, k, k);
                    let r = stable_rank(keys, k);
                    lemma_item_at_rank_unique(keys, r, k);
                    assert(ps[r] == q);
                }
            }
            lemma_filter_is_without_positions(s, ps, p);
            assert(f(s) == without_positions(s, ps, 0));
            lemma_reinsert_restores(s, ps, sorted, n);
            assert(sorted.take(n) =~= sorted);
            lemma_without_positions_shape(s, ps, n);
            assert(without_positions(s, ps, n) == s);
            assert(g(f(s)) == s);
            assert(with_layer(d, i, with_strokes(d.layers[i], s)) =~= d);
        },
        None => {},
    }
}

/// The deletion of the active layer that the editor builds can be undone.
pub proof fn lemma_layer_deletion_undoable(d: DocumentView, i: int)
    requires
        1 < d.layers.len() <= usize::MAX,
        first_layer_at(d.layers, d.active_layer_id, i),
    ensures
        (CommandView::RemoveLayer {
            layer: d.layers[i],
            index: i as usize,
            previous_active_layer_id: d.active_layer_id,
            new_active_layer_id: successor_layer_id(d.layers, i),
        }).undoable_from(d),
{
}

/// Deleting the active layer as the editor does it leaves one layer fewer,
/// at least one, and makes active a layer that the document still has.
pub proof fn lemma_layer_deletion_keeps_an_active_layer(d: DocumentView, i: int)
    requires
        1 < d.layers.len() <= usize::MAX,
        first_layer_at(d.layers, d.active_layer_id, i),
    ensures
        ({
            let after = (CommandView::RemoveLayer {
                layer: d.layers[i],
                index: i as usize,
                previous_active_layer_id: d.active_layer_id,
                new_active_layer_id: successor_layer_id(d.layers, i),
            }).applied_to(d);
            &&& after.layers == d.layers.remove(i)
            &&& after.layers.len() >= 1
            &&& has_layer(after.layers, after.active_layer_id)
        }),
{
    let rest = d.layers.remove(i);
    if i + 1 < d.layers.len() {
        assert(rest[i].id == d.layers[i + 1].id);
    } else {
        assert(rest[i - 1].id == d.layers[i - 1].id);
    }
}

/// The deletion of the selected strokes that the editor builds can be
/// undone, when the strokes of the active layer have distinct identifiers:
/// each stroke is recorded with its own position.
pub proof fn lemma_delete_selected_undoable(d: DocumentView, selected: Seq<StrokeRef>)
    requires
        layer_position(d.layers, d.active_layer_id) matches Some(i) ==> {
            &&& distinct_stroke_ids(d.layers[i].strokes)
            &&& d.layers[i].strokes.len() <= usize::MAX
        },
    ensures
        ({
            let positions = selected_positions(d, selected, d.active_layer_id);
            (CommandView::RemoveStrokes {
                layer_id: d.active_layer_id,
                strokes: strokes_at(d, d.active_layer_id, positions),
                indices: positions,
            }).undoable_from(d)
        }),
{
    lemma_selected_positions(d, selected, d.active_layer_id);
    let positions = selected_positions(d, selected, d.active_layer_id);
    match layer_position(d.layers, d.active_layer_id) {
        Some(i) => {
            let s = d.layers[i].strokes;
            let strokes = strokes_at(d, d.active_layer_id, positions);
            assert forall|k: int| 0 <= k < positions.len() implies #[trigger] strokes[k] == s[positions[k] as int] by {
            }
            assert forall|a: int, b: int| 0 <= a < b < positions.len() implies #[trigger] positions[a]
                != #[trigger] positions[b] by {
            }
        },
        None => {},
    }
}

/// Setting a layer puts `after`, whole, in place of the first layer with its
/// identifier and changes nothing else; without such a layer the document
/// stays as it is.
pub proof fn lemma_set_layer_installs_after(d: DocumentView, before: LayerView, after: LayerView)
    ensures
        ({
            let e = (CommandView::SetLayer { before, after }).applied_to(d);
            &&& e.layers.len() == d.layers.len()
            &&& e == (DocumentView { layers: e.layers, ..d })
            &&& forall|i: int| #[trigger] first_layer_at(d.layers, after.id, i) ==> {
                &&& e.layers[i] == after
                &&& forall|k: int| 0 <= k < d.layers.len() && k != i ==> #[trigger] e.layers[k] == d.layers[k]
            }
            &&& !has_layer(d.layers, after.id) ==> e.layers == d.layers
        }),
{
    lemma_layer_position_cases(d.layers, after.id);
    assert forall|i: int| #[trigger] first_layer_at(d.layers, after.id, i) implies layer_position(d.layers, after.id)
        == Some(i) by {
        lemma_layer_position(d.layers, after.id, i);
    }
}

/// Reverting a change of a layer puts `before`, whole, in place of the first
/// layer with its identifier and changes nothing else.
pub proof fn lemma_set_layer_reverts_to_before(d: DocumentView, before: LayerView, after: LayerView)
    ensures
        ({
            let e = (CommandView::SetLayer { before, after }).reverted_from(d);
            &&& e.layers.len() == d.layers.len()
            &&& e == (DocumentView { layers: e.layers, ..d })
            &&& forall|i: int| #[trigger] first_layer_at(d.layers, before.id, i) ==> {
                &&& e.layers[i] == before
                &&& forall|k: int| 0 <= k < d.layers.len() && k != i ==> #[trigger] e.layers[k] == d.layers[k]
            }
            &&& !has_layer(d.layers, before.id) ==> e.layers == d.layers
        }),
{
    lemma_layer_position_cases(d.layers, before.id);
    assert forall|i: int| #[trigger] first_layer_at(d.layers, before.id, i) implies layer_position(d.layers, before.id)
        == Some(i) by {
        lemma_layer_position(d.layers, before.id, i);
    }
}

/// Changing the background colour sets it to `after` and changes nothing else.
pub proof fn lemma_background_color_set(d: DocumentView, before: [u32; 4], after: [u32; 4])
    ensures
        (CommandView::SetBackgroundColor { before, after }).applied_to(d) == (DocumentView {
            background_color: after,
            ..d
        }),
        (CommandView::SetBackgroundColor { before, after }).reverted_from(d) == (DocumentView {
            background_color: before,
            ..d
        }),
{
}

/// Adding a stroke to a layer inserts it at the given position (at the end
/// when the position is past it), shifts the strokes from there on by one,
/// and changes nothing else.
pub proof fn lemma_add_stroke_inserts(d: DocumentView, layer_id: LayerId, stroke: StrokeView, index: usize, i: int)
    requires
        first_layer_at(d.layers, layer_id, i),
    ensures
        ({
            let e = (CommandView::AddStroke { layer_id, stroke, index }).applied_to(d);
            let s = d.layers[i].strokes;
            let t = e.layers[i].strokes;
            let at = if index < s.len() { index as int } else { s.len() as int };
            &&& e == (DocumentView { layers: e.layers, ..d })
            &&& e.layers.len() == d.layers.len()
            &&& forall|k: int| 0 <= k < d.layers.len() && k != i ==> #[trigger] e.layers[k] == d.layers[k]
            &&& e.layers[i] == (LayerView { strokes: t, ..d.layers[i] })
            &&& t.len() == s.len() + 1
            &&& t[at] == stroke
            &&& forall|q: int| 0 <= q < at ==> #[trigger] t[q] == s[q]
            &&& forall|q: int| at <= q < s.len() ==> #[trigger] t[q + 1] == s[q]
        }),
{
    lemma_layer_position(d.layers, layer_id, i);
}

/// Removing strokes from a layer leaves exactly its strokes whose
/// identifiers are not among the removed ones, and changes nothing else.
pub proof fn lemma_remove_strokes_removes(
    d: DocumentView,
    layer_id: LayerId,
    strokes: Seq<StrokeView>,
    indices: Seq<usize>,
    i: int,
)
    requires
        first_layer_at(d.layers, layer_id, i),
    ensures
        ({
            let e = (CommandView::RemoveStrokes { layer_id, strokes, indices }).applied_to(d);
            let s = d.layers[i].strokes;
            let t = e.layers[i].strokes;
            &&& e == (DocumentView { layers: e.layers, ..d })
            &&& e.layers.len() == d.layers.len()
            &&& forall|k: int| 0 <= k < d.layers.len() && k != i ==> #[trigger] e.layers[k] == d.layers[k]
            &&& e.layers[i] == (LayerView { strokes: t, ..d.layers[i] })
            &&& t.len() <= s.len()
            &&& forall|x: StrokeView| #[trigger] t.contains(x) <==> (s.contains(x) && !has_stroke(strokes, x.id))
        }),
{
    lemma_layer_position(d.layers, layer_id, i);
    let s = d.layers[i].strokes;
    let p = |x: StrokeView| !has_stroke(strokes, x.id);
    let t = s.filter(p);
    s.lemma_filter_len(p);
    assert forall|x: StrokeView| #[trigger] t.contains(x) <==> (s.contains(x) && p(x)) by {
        if t.contains(x) {
            s.lemma_filter_contains_rev(p, x);
            let q = choose|q: int| 0 <= q < t.len() && t[q] == x;
            s.lemma_filter_pred(p, q);
        }
        if s.contains(x) && p(x) {
            let q = choose|q: int| 0 <= q < s.len() && s[q] == x;
            s.lemma_filter_contains(p, q);
        }
    }
}

/// Adding a layer inserts it at the given position (on top when the
/// position is past the end) and makes the new active layer active; nothing
/// else changes.
pub proof fn lemma_add_layer_inserts(
    d: DocumentView,
    layer: LayerView,
    index: usize,
    previous_active_layer_id: LayerId,
    new_active_layer_id: LayerId,
)
    ensures
        ({
            let e = (CommandView::AddLayer { layer, index, previous_active_layer_id, new_active_layer_id }).applied_to(d);
            let at = if index < d.layers.len() { index as int } else { d.layers.len() as int };
            &&& e == (DocumentView { layers: e.layers, active_layer_id: new_active_layer_id, ..d })
            &&& e.layers.len() == d.layers.len() + 1
            &&& e.layers[at] == layer
            &&& forall|q: int| 0 <= q < at ==> #[trigger] e.layers[q] == d.layers[q]
            &&& forall|q: int| at <= q < d.layers.len() ==> #[trigger] e.layers[q + 1] == d.layers[q]
        }),
{
}

/// Moving a layer puts the layer at `from` at position `to`, keeps the number
/// of layers, and keeps every other layer in its order.
pub proof fn lemma_reorder_moves(d: DocumentView, from: usize, to: usize)
    requires
        from < d.layers.len(),
        to < d.layers.len(),
    ensures
        ({
            let e = (CommandView::ReorderLayer { from, to }).applied_to(d);
            &&& e == (DocumentView { layers: e.layers, ..d })
            &&& e.layers.len() == d.layers.len()
            &&& e.layers[to as int] == d.layers[from as int]
            &&& e.layers.remove(to as int) == d.layers.remove(from as int)
        }),
{
    let rest = d.layers.remove(from as int);
    let e = rest.insert(to as int, d.layers[from as int]);
    assert(e.remove(to as int) =~= rest);
}

/// A move of a layer between two positions of the document can be undone.
pub proof fn lemma_reorder_undoable(d: DocumentView, from: usize, to: usize)
    requires
        from < d.layers.len(),
        to < d.layers.len(),
    ensures
        (CommandView::ReorderLayer { from, to }).undoable_from(d),
{
}

/// Adding a layer whose identifier no layer has can be undone, when it
/// records the active layer.
pub proof fn lemma_new_layer_undoable(d: DocumentView, layer: LayerView, index: usize, new_active_layer_id: LayerId)
    requires
        !has_layer(d.layers, layer.id),
    ensures
        (CommandView::AddLayer {
            layer,
            index,
            previous_active_layer_id: d.active_layer_id,
            new_active_layer_id,
        }).undoable_from(d),
{
}

/// Adding a stroke whose identifier no stroke of its layer has can be undone.
pub proof fn lemma_add_stroke_undoable(d: DocumentView, layer_id: LayerId, stroke: StrokeView, index: usize)
    requires
        forall|i: int| first_layer_at(d.layers, layer_id, i) ==> !has_stroke(d.layers[i].strokes, stroke.id),
    ensures
        (CommandView::AddStroke { layer_id, stroke, index }).undoable_from(d),
{
    lemma_layer_position_cases(d.layers, layer_id);
}

/// `x` is the first stroke with its identifier in the first layer with
/// identifier `layer_id`.
pub open spec fn first_in_layer(d: DocumentView, layer_id: LayerId, x: StrokeView) -> bool {
    match layer_position(d.layers, layer_id) {
        Some(i) => is_first_of_its_id(d.layers[i].strokes, x),
        None => false,
    }
}

/// Each collected stroke is the first stroke with its identifier in the
/// first layer with the collected layer identifier.
pub proof fn lemma_collected_are_first(d: DocumentView, selected: Seq<StrokeRef>, layer_id: LayerId)
    ensures
        forall|t: int|
            #![trigger collected(d, selected, layer_id)[t]]
            0 <= t < collected(d, selected, layer_id).len() ==> first_in_layer(d, layer_id, collected(d, selected, layer_id)[t]),
    decreases selected.len(),
{
    if selected.len() > 0 {
        let rest = selected.drop_last();
        lemma_collected_are_first(d, rest, layer_id);
        let r = selected.last();
        let all = collected(d, selected, layer_id);
        let before = collected(d, rest, layer_id);
        if r.layer_id == layer_id && found_stroke(d, r.layer_id, r.stroke_id) is Some {
            let x = found_stroke(d, r.layer_id, r.stroke_id)->0;
            assert(all == before + seq![x]);
            lemma_layer_position_cases(d.layers, layer_id);
            let i = layer_position(d.layers, layer_id)->0;
            lemma_stroke_position_cases(d.layers[i].strokes, r.stroke_id);
            let j = stroke_position(d.layers[i].strokes, r.stroke_id)->0;
            assert forall|t: int| #![trigger all[t]] 0 <= t < all.len() implies first_in_layer(d, layer_id, all[t]) by {
                if t == all.len() - 1 {
                    assert(all[t] == x);
                    assert(x == d.layers[i].strokes[j]);
                    assert(first_stroke_at(d.layers[i].strokes, all[t].id, j));
                } else {
                    assert(all[t] == before[t]);
                }
            }
        } else {
            assert(all == before);
            assert forall|t: int| #![trigger all[t]] 0 <= t < all.len() implies first_in_layer(d, layer_id, all[t]) by {
                assert(all[t] == before[t]);
            }
        }
    } else {
        assert(collected(d, selected, layer_id).len() == 0);
    }
}

/// The change of colour that the editor builds for a selection can be undone.
pub proof fn lemma_recolor_undoable(d: DocumentView, selected: Seq<StrokeRef>, color: [u32; 4])
    ensures
        ({
            let before = collected(d, selected, d.active_layer_id);
            (CommandView::ModifyStrokes {
                layer_id: d.active_layer_id,
                before,
                after: recolored(before, color),
            }).undoable_from(d)
        }),
{
    let before = collected(d, selected, d.active_layer_id);
    let after = recolored(before, color);
    lemma_collected_are_first(d, selected, d.active_layer_id);
    lemma_layer_position_cases(d.layers, d.active_layer_id);
    match layer_position(d.layers, d.active_layer_id) {
        Some(i) => {
            let s = d.layers[i].strokes;
            assert forall|k: int| 0 <= k < before.len() implies is_first_of_its_id(s, #[trigger] before[k]) by {
            }
            assert forall|k: int| 0 <= k < after.len() implies has_stroke(before, #[trigger] after[k].id) by {
                assert(before[k].id == after[k].id);
            }
        },
        None => {},
    }
}

} // verus!
