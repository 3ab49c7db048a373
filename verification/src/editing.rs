//! The edits the editor offers, as commands built from the current document
//! and selection.
use vstd::prelude::*;

use crate::commands::{Command, CommandView};
use crate::model::{
    copy_strokes, first_layer_at, first_stroke_at, has_layer, has_stroke, layer_position,
    lemma_layer_position, lemma_layer_position_cases, lemma_stroke_position,
    lemma_stroke_position_cases, numbered_layer_name, numbered_layer_name_string, stroke_position,
    stroke_views, Document, DocumentView, Layer, LayerId, LayerView, Stroke, StrokeId, StrokeView,
    BlendMode, UNIT,
};
use crate::selection::StrokeRef;

verus! {

/// The first stroke with identifier `stroke_id` of the first layer with
/// identifier `layer_id`, if both exist.
pub open spec fn found_stroke(d: DocumentView, layer_id: LayerId, stroke_id: StrokeId) -> Option<StrokeView> {
    match layer_position(d.layers, layer_id) {
        Some(i) => match stroke_position(d.layers[i].strokes, stroke_id) {
            Some(j) => Some(d.layers[i].strokes[j]),
            None => None,
        },
        None => None,
    }
}

/// The selected strokes of layer `layer_id` that exist, in the order of the selection.
pub open spec fn collected(d: DocumentView, selected: Seq<StrokeRef>, layer_id: LayerId) -> Seq<StrokeView> {
    selected.filter_map(
        |r: StrokeRef|
            if r.layer_id == layer_id {
                found_stroke(d, r.layer_id, r.stroke_id)
            } else {
                None
            },
    )
}

/// Whether a stroke of layer `layer_id` with identifier `stroke_id` is selected.
pub open spec fn is_selected(selected: Seq<StrokeRef>, layer_id: LayerId, stroke_id: StrokeId) -> bool {
    exists|k: int|
        0 <= k < selected.len() && #[trigger] selected[k] == (StrokeRef { layer_id, stroke_id })
}

/// The positions, from last to first, of the selected strokes in the first
/// layer with identifier `layer_id`; none without such a layer.
pub open spec fn selected_positions(d: DocumentView, selected: Seq<StrokeRef>, layer_id: LayerId) -> Seq<usize> {
    match layer_position(d.layers, layer_id) {
        Some(i) => {
            let n = d.layers[i].strokes.len();
            Seq::new(n, |k: int| (n - 1 - k) as usize).filter(
                |p: usize| is_selected(selected, layer_id, d.layers[i].strokes[p as int].id),
            )
        },
        None => Seq::empty(),
    }
}

/// The collected strokes are exactly the strokes found for the selected
/// references to layer `layer_id`.
pub proof fn lemma_collected_exactly(d: DocumentView, selected: Seq<StrokeRef>, layer_id: LayerId)
    ensures
        forall|x: StrokeView| #[trigger] collected(d, selected, layer_id).contains(x) <==> exists|k: int|
            0 <= k < selected.len() && (#[trigger] selected[k]).layer_id == layer_id && found_stroke(
                d,
                layer_id,
                selected[k].stroke_id,
            ) == Some(x),
{
    let f = |r: StrokeRef|
        if r.layer_id == layer_id {
            found_stroke(d, r.layer_id, r.stroke_id)
        } else {
            None
        };
    assert forall|x: StrokeView| #[trigger] collected(d, selected, layer_id).contains(x) <==> exists|k: int|
        0 <= k < selected.len() && (#[trigger] selected[k]).layer_id == layer_id && found_stroke(
            d,
            layer_id,
            selected[k].stroke_id,
        ) == Some(x) by {
        if collected(d, selected, layer_id).contains(x) {
            selected.lemma_filter_map_contains(f, x);
            let r = choose|r: StrokeRef| #[trigger] selected.contains(r) && f(r) == Some(x);
            let k = choose|k: int| 0 <= k < selected.len() && selected[k] == r;
            assert(selected[k].layer_id == layer_id);
        }
        if exists|k: int| 0 <= k < selected.len() && (#[trigger] selected[k]).layer_id == layer_id
            && found_stroke(d, layer_id, selected[k].stroke_id) == Some(x) {
            let k = choose|k: int| 0 <= k < selected.len() && (#[trigger] selected[k]).layer_id == layer_id
                && found_stroke(d, layer_id, selected[k].stroke_id) == Some(x);
            crate::positions::lemma_filter_map_has(selected, f, k);
        }
    }
}

/// The stroke found by `find_stroke` is the one `found_stroke` names.
proof fn lemma_found_stroke(d: DocumentView, layer_id: LayerId, stroke_id: StrokeId)
    ensures
        found_stroke(d, layer_id, stroke_id) is None <==> (!has_layer(d.layers, layer_id) || exists|i: int|
            first_layer_at(d.layers, layer_id, i) && !has_stroke(d.layers[i].strokes, stroke_id)),
        forall|i: int, j: int|
            first_layer_at(d.layers, layer_id, i) && first_stroke_at(d.layers[i].strokes, stroke_id, j)
                ==> found_stroke(d, layer_id, stroke_id) == Some(d.layers[i].strokes[j]),
{
    lemma_layer_position_cases(d.layers, layer_id);
    assert forall|i: int, j: int|
        first_layer_at(d.layers, layer_id, i) && first_stroke_at(d.layers[i].strokes, stroke_id, j)
            implies found_stroke(d, layer_id, stroke_id) == Some(d.layers[i].strokes[j]) by {
        lemma_layer_position(d.layers, layer_id, i);
        lemma_stroke_position(d.layers[i].strokes, stroke_id, j);
    }
    match layer_position(d.layers, layer_id) {
        Some(i) => {
            lemma_stroke_position_cases(d.layers[i].strokes, stroke_id);
            assert forall|i2: int| first_layer_at(d.layers, layer_id, i2) implies i2 == i by {
                lemma_layer_position(d.layers, layer_id, i2);
            }
        },
        None => {},
    }
}

/// Copies of the selected strokes of layer `layer_id`, in the order of the selection.
pub fn collect_strokes(document: &Document, selected: &[StrokeRef], layer_id: LayerId) -> (strokes: Vec<Stroke>)
    ensures
        stroke_views(strokes@) == collected(document@, selected@, layer_id),
{
    let ghost d = document@;
    let ghost f = |r: StrokeRef|
        if r.layer_id == layer_id {
            found_stroke(d, r.layer_id, r.stroke_id)
        } else {
            None
        };
    let mut strokes: Vec<Stroke> = Vec::new();
    let n = selected.len();
    let mut k: usize = 0;
    while k < n
        invariant
            d == document@,
            f == (|r: StrokeRef|
                if r.layer_id == layer_id {
                    found_stroke(d, r.layer_id, r.stroke_id)
                } else {
                    None
                }),
            n == selected@.len(),
            k <= n,
            stroke_views(strokes@) == selected@.take(k as int).filter_map(f),
        decreases n - k,
    {
        let item = selected[k];
        proof {
            assert(selected@.take(k + 1).drop_last() =~= selected@.take(k as int));
            lemma_found_stroke(d, item.layer_id, item.stroke_id);
        }
        if item.layer_id == layer_id {
            match document.find_stroke(item.layer_id, item.stroke_id) {
                Some(stroke) => {
                    let ghost prev = stroke_views(strokes@);
                    strokes.push(stroke.duplicate());
                    proof {
                        assert(stroke_views(strokes@) =~= prev + seq![stroke@]);
                    }
                },
                None => {},
            }
        }
        k += 1;
    }
    proof {
        assert(selected@.take(n as int) =~= selected@);
    }
    strokes
}

/// Whether `selected` holds a reference to stroke `stroke_id` of layer `layer_id`.
pub fn selection_contains(selected: &[StrokeRef], layer_id: LayerId, stroke_id: StrokeId) -> (found: bool)
    ensures
        found == is_selected(selected@, layer_id, stroke_id),
{
    let n = selected.len();
    let mut k: usize = 0;
    while k < n
        invariant
            n == selected@.len(),
            k <= n,
            forall|m: int| 0 <= m < k ==> #[trigger] selected@[m] != (StrokeRef { layer_id, stroke_id }),
        decreases n - k,
    {
        if selected[k].layer_id == layer_id && selected[k].stroke_id == stroke_id {
            return true;
        }
        k += 1;
    }
    false
}

/// The positions, from last to first, of the selected strokes in the first
/// layer with identifier `layer_id`.
pub fn stroke_indices(document: &Document, selected: &[StrokeRef], layer_id: LayerId) -> (indices: Vec<usize>)
    ensures
        indices@ == selected_positions(document@, selected@, layer_id),
{
    let ghost d = document@;
    let mut indices: Vec<usize> = Vec::new();
    match document.layer_index(layer_id) {
        Some(i) => {
            proof {
                lemma_layer_position(d.layers, layer_id, i as int);
            }
            let strokes = &document.layers[i].strokes;
            let n = strokes.len();
            let ghost all = Seq::new(n as nat, |k: int| (n - 1 - k) as usize);
            let ghost pred = |p: usize| is_selected(selected@, layer_id, d.layers[i as int].strokes[p as int].id);
            let mut k: usize = 0;
            while k < n
                invariant
                    d == document@,
                    i < d.layers.len(),
                    strokes == &document.layers@[i as int].strokes,
                    n == strokes@.len(),
                    all == Seq::new(n as nat, |k: int| (n - 1 - k) as usize),
                    pred == (|p: usize| is_selected(selected@, layer_id, d.layers[i as int].strokes[p as int].id)),
                    k <= n,
                    indices@ == all.take(k as int).filter(pred),
                decreases n - k,
            {
                let p = n - 1 - k;
                proof {
                    reveal_with_fuel(Seq::filter, 1);
                    assert(all.take(k + 1).drop_last() =~= all.take(k as int));
                    assert(all[k as int] == p);
                    assert(d.layers[i as int].strokes[p as int] == strokes@[p as int]@);
                }
                if selection_contains(selected, layer_id, strokes[p].id) {
                    indices.push(p);
                }
                k += 1;
            }
            proof {
                assert(all.take(n as int) =~= all);
            }
        },
        None => {
            proof {
                lemma_layer_position_cases(d.layers, layer_id);
            }
        },
    }
    indices
}

/// The strokes of the first layer with identifier `layer_id` at `positions`,
/// in the order of `positions`; none without such a layer.
pub open spec fn strokes_at(d: DocumentView, layer_id: LayerId, positions: Seq<usize>) -> Seq<StrokeView> {
    match layer_position(d.layers, layer_id) {
        Some(i) => positions.map_values(|p: usize| d.layers[i].strokes[p as int]),
        None => Seq::empty(),
    }
}

/// The positions of the selected strokes are distinct positions of the layer.
pub proof fn lemma_selected_positions(d: DocumentView, selected: Seq<StrokeRef>, layer_id: LayerId)
    requires
        layer_position(d.layers, layer_id) matches Some(i) ==> d.layers[i].strokes.len() <= usize::MAX,
    ensures
        selected_positions(d, selected, layer_id).no_duplicates(),
        layer_position(d.layers, layer_id) matches Some(i) ==> forall|k: int|
            0 <= k < selected_positions(d, selected, layer_id).len()
                ==> #[trigger] selected_positions(d, selected, layer_id)[k] < d.layers[i].strokes.len(),
        layer_position(d.layers, layer_id) is None ==> selected_positions(d, selected, layer_id).len() == 0,
        layer_position(d.layers, layer_id) matches Some(i) ==> forall|p: usize|
            #[trigger] selected_positions(d, selected, layer_id).contains(p) <==> (p < d.layers[i].strokes.len()
                && is_selected(selected, layer_id, d.layers[i].strokes[p as int].id)),
{
    match layer_position(d.layers, layer_id) {
        Some(i) => {
            let n = d.layers[i].strokes.len();
            let all = Seq::new(n, |k: int| (n - 1 - k) as usize);
            let pred = |p: usize| is_selected(selected, layer_id, d.layers[i].strokes[p as int].id);
            let ps = all.filter(pred);
            assert(ps == selected_positions(d, selected, layer_id));
            assert(all.no_duplicates()) by {
                assert forall|a: int, b: int| 0 <= a < n && 0 <= b < n && a != b implies all[a] != all[b] by {
                    assert(all[a] == n - 1 - a);
                    assert(all[b] == n - 1 - b);
                }
            }
            crate::positions::lemma_filter_keeps_no_duplicates(all, pred);
            assert forall|k: int| 0 <= k < ps.len() implies #[trigger] ps[k] < n by {
                assert(ps.contains(ps[k]));
                all.lemma_filter_contains_rev(pred, ps[k]);
            }
            assert forall|p: usize| #[trigger] ps.contains(p) <==> (p < n && pred(p)) by {
                if ps.contains(p) {
                    all.lemma_filter_contains_rev(pred, p);
                    let q = choose|q: int| 0 <= q < ps.len() && ps[q] == p;
                    all.lemma_filter_pred(pred, q);
                }
                if p < n && pred(p) {
                    let q = n - 1 - p;
                    assert(all[q] == p);
                    all.lemma_filter_contains(pred, q);
                }
            }
        },
        None => {},
    }
}

/// The removal of the selected strokes of the active layer, from the last
/// position to the first, each recorded with its position; nothing when none
/// of them exists.
pub fn delete_selected_command(document: &Document, selected: &[StrokeRef]) -> (command: Option<Command>)
    ensures
        ({
            let d = document@;
            let positions = selected_positions(d, selected@, d.active_layer_id);
            match command {
                Some(c) => positions.len() > 0 && c@ == (CommandView::RemoveStrokes {
                    layer_id: d.active_layer_id,
                    strokes: strokes_at(d, d.active_layer_id, positions),
                    indices: positions,
                }),
                None => positions.len() == 0,
            }
        }),
{
    let ghost d = document@;
    let layer_id = document.active_layer_id;
    let indices = stroke_indices(document, selected, layer_id);
    let i = match document.layer_index(layer_id) {
        Some(i) => i,
        None => {
            proof {
                lemma_layer_position_cases(d.layers, layer_id);
                lemma_selected_positions(d, selected@, layer_id);
            }
            return None;
        },
    };
    proof {
        lemma_layer_position(d.layers, layer_id, i as int);
    }
    let count = document.layers[i].strokes.len();
    proof {
        assert(count == d.layers[i as int].strokes.len());
        lemma_selected_positions(d, selected@, layer_id);
    }
    if indices.len() == 0 {
        return None;
    }
    let layer = &document.layers[i];
    let ghost s = d.layers[i as int].strokes;
    let ghost f = |p: usize| s[p as int];
    let mut strokes: Vec<Stroke> = Vec::new();
    let n = indices.len();
    let mut k: usize = 0;
    while k < n
        invariant
            d == document@,
            i < d.layers.len(),
            layer == &document.layers@[i as int],
            s == d.layers[i as int].strokes,
            f == (|p: usize| s[p as int]),
            n == indices@.len(),
            forall|m: int| 0 <= m < n ==> #[trigger] indices@[m] < s.len(),
            k <= n,
            stroke_views(strokes@) == indices@.take(k as int).map_values(f),
        decreases n - k,
    {
        let p = indices[k];
        let copy = layer.strokes[p].duplicate();
        proof {
            assert(s[p as int] == layer.strokes@[p as int]@);
        }
        let ghost before = strokes@;
        strokes.push(copy);
        k += 1;
        proof {
            assert(stroke_views(strokes@) =~= stroke_views(before).push(copy@));
            assert(indices@.take(k as int).map_values(f) =~= indices@.take(k - 1).map_values(f).push(f(p)));
        }
    }
    proof {
        assert(indices@.take(n as int) =~= indices@);
        assert(stroke_views(strokes@) =~= strokes_at(d, layer_id, indices@));
    }
    Some(Command::RemoveStrokes { layer_id, strokes, indices })
}

/// `strokes` with every colour set to `color`.
pub open spec fn recolored(strokes: Seq<StrokeView>, color: [u32; 4]) -> Seq<StrokeView> {
    strokes.map_values(|s: StrokeView| StrokeView { color, ..s })
}

/// Recolouring keeps every stroke, in order, and changes its colour and
/// nothing else.
pub proof fn lemma_recolored(strokes: Seq<StrokeView>, color: [u32; 4])
    ensures
        recolored(strokes, color).len() == strokes.len(),
        forall|k: int| 0 <= k < strokes.len() ==> {
            &&& (#[trigger] recolored(strokes, color)[k]).color == color
            &&& recolored(strokes, color)[k].id == strokes[k].id
            &&& recolored(strokes, color)[k].points == strokes[k].points
            &&& recolored(strokes, color)[k].width_scale == strokes[k].width_scale
        },
{
}

/// The change of colour of the selected strokes of the active layer, or
/// nothing when none is selected or none of them exists.
pub fn recolor_command(document: &Document, selected: &[StrokeRef], color: [u32; 4]) -> (command: Option<Command>)
    ensures
        ({
            let d = document@;
            let before = collected(d, selected@, d.active_layer_id);
            match command {
                Some(c) => selected@.len() > 0 && before.len() > 0 && c@ == (CommandView::ModifyStrokes {
                    layer_id: d.active_layer_id,
                    before,
                    after: recolored(before, color),
                }),
                None => selected@.len() == 0 || before.len() == 0,
            }
        }),
        command matches Some(c) ==> (c@ matches CommandView::ModifyStrokes { before, after, .. } && {
            &&& after.len() == before.len()
            &&& forall|k: int| 0 <= k < before.len() ==> #[trigger] after[k] == (StrokeView { color, ..before[k] })
        }),
{
    if selected.len() == 0 {
        return None;
    }
    let layer_id = document.active_layer_id;
    let before = collect_strokes(document, selected, layer_id);
    if before.len() == 0 {
        return None;
    }
    let mut after: Vec<Stroke> = copy_strokes(&before);
    proof {
        assert(stroke_views(after@).len() == stroke_views(before@).len());
        assert forall|m: int| 0 <= m < after@.len() implies #[trigger] after@[m]@ == before@[m]@ by {
            assert(stroke_views(after@)[m] == stroke_views(before@)[m]);
        }
    }
    let n = after.len();
    let mut k: usize = 0;
    while k < n
        invariant
            n == after@.len(),
            n == before@.len(),
            k <= n,
            forall|m: int| 0 <= m < k ==> #[trigger] after@[m]@ == (StrokeView { color, ..before@[m]@ }),
            forall|m: int| k <= m < n ==> #[trigger] after@[m]@ == before@[m]@,
        decreases n - k,
    {
        let mut stroke = after[k].duplicate();
        stroke.color = color;
        after.set(k, stroke);
        k += 1;
    }
    proof {
        assert(stroke_views(after@) =~= recolored(stroke_views(before@), color));
    }
    Some(Command::ModifyStrokes { layer_id, before, after })
}

/// The addition of a new empty layer with identifier `id`, named after the
/// new layer count, on top of the others, which becomes active.
pub fn new_layer_command(document: &Document, id: LayerId) -> (command: Command)
    requires
        document@.layers.len() < usize::MAX,
    ensures
        command@ == (CommandView::AddLayer {
            layer: LayerView {
                id,
                name: numbered_layer_name((document@.layers.len() + 1) as nat),
                visible: true,
                opacity: UNIT,
                blend_mode: BlendMode::Normal,
                strokes: Seq::empty(),
            },
            index: document@.layers.len() as usize,
            previous_active_layer_id: document@.active_layer_id,
            new_active_layer_id: id,
        }),
{
    let index = document.layers.len();
    let layer = Layer::named(id, numbered_layer_name_string(index + 1));
    Command::AddLayer {
        layer,
        index,
        previous_active_layer_id: document.active_layer_id,
        new_active_layer_id: id,
    }
}

/// Why the active layer cannot be deleted.
#[derive(Clone, Copy, Debug, PartialEq, Eq, Structural)]
pub enum LayerDeletionRefused {
    /// The document has no other layer.
    LastLayer,
    /// No layer has the active identifier.
    NoActiveLayer,
}

/// The identifier of the layer that becomes active when the layer at `index`
/// of `layers` (at least two) is deleted: the next one, or the previous one
/// when it is the last.
pub open spec fn successor_layer_id(layers: Seq<LayerView>, index: int) -> LayerId {
    if index + 1 < layers.len() {
        layers[index + 1].id
    } else {
        layers[index - 1].id
    }
}

/// The deletion of the active layer, which the next layer (or the previous
/// one, for the last) replaces as the active layer.
pub fn delete_active_layer_command(document: &Document) -> (command: Result<Command, LayerDeletionRefused>)
    ensures
        ({
            let d = document@;
            match command {
                Ok(c) => d.layers.len() > 1 && exists|i: int| {
                    &&& first_layer_at(d.layers, d.active_layer_id, i)
                    &&& c@ == (CommandView::RemoveLayer {
                        layer: d.layers[i],
                        index: i as usize,
                        previous_active_layer_id: d.active_layer_id,
                        new_active_layer_id: successor_layer_id(d.layers, i),
                    })
                },
                Err(LayerDeletionRefused::LastLayer) => d.layers.len() <= 1,
                Err(LayerDeletionRefused::NoActiveLayer) => d.layers.len() > 1 && !has_layer(
                    d.layers,
                    d.active_layer_id,
                ),
            }
        }),
{
    let n = document.layers.len();
    if n <= 1 {
        return Err(LayerDeletionRefused::LastLayer);
    }
    let id = document.active_layer_id;
    let index = match document.layer_index(id) {
        Some(i) => i,
        None => {
            return Err(LayerDeletionRefused::NoActiveLayer);
        },
    };
    let layer = document.layers[index].duplicate();
    let candidate = if index + 1 < n - 1 { index + 1 } else { n - 1 };
    let new_active_layer_id = if candidate == n - 1 && candidate == index {
        let previous = if index > 0 { index - 1 } else { 0 };
        document.layers[previous].id
    } else {
        document.layers[candidate].id
    };
    proof {
        let d = document@;
        assert(document.layers@[index as int]@ == d.layers[index as int]);
        assert(document.layers@[candidate as int]@ == d.layers[candidate as int]);
        if index > 0 {
            assert(document.layers@[index - 1]@ == d.layers[index - 1]);
        }
        assert(new_active_layer_id == successor_layer_id(d.layers, index as int));
    }
    let command = Command::RemoveLayer { layer, index, previous_active_layer_id: id, new_active_layer_id };
    proof {
        let d = document@;
        assert(first_layer_at(d.layers, d.active_layer_id, index as int));
        assert(command@ == (CommandView::RemoveLayer {
            layer: d.layers[index as int],
            index,
            previous_active_layer_id: d.active_layer_id,
            new_active_layer_id: successor_layer_id(d.layers, index as int),
        }));
    }
    Ok(command)
}

/// The move of the layer at `from` to `to`; nothing when they are equal or
/// out of range.
pub fn reorder_command(document: &Document, from: usize, to: usize) -> (command: Option<Command>)
    ensures
        match command {
            Some(c) => from != to && from < document@.layers.len() && to < document@.layers.len() && c@
                == (CommandView::ReorderLayer { from, to }),
            None => from == to || from >= document@.layers.len() || to >= document@.layers.len(),
        },
{
    if from == to {
        return None;
    }
    let n = document.layers.len();
    if from >= n || to >= n {
        return None;
    }
    Some(Command::ReorderLayer { from, to })
}

/// The addition of `stroke` at the end of layer `layer_id` (position 0 when
/// there is no such layer).
pub fn add_stroke_command(document: &Document, layer_id: LayerId, stroke: Stroke) -> (command: Command)
    ensures
        command@ == (CommandView::AddStroke {
            layer_id,
            stroke: stroke@,
            index: match layer_position(document@.layers, layer_id) {
                Some(i) => document@.layers[i].strokes.len() as usize,
                None => 0,
            },
        }),
{
    let index = match document.layer_index(layer_id) {
        Some(i) => {
            proof {
                lemma_layer_position(document@.layers, layer_id, i as int);
            }
            document.layers[i].strokes.len()
        },
        None => {
            proof {
                lemma_layer_position_cases(document@.layers, layer_id);
            }
            0
        },
    };
    Command::AddStroke { layer_id, stroke, index }
}

} // verus!
