use inkline::commands::Command;
use inkline::editing::{
    add_stroke_command, collect_strokes, delete_active_layer_command, delete_selected_command,
    new_layer_command, recolor_command, reorder_command, stroke_indices, LayerDeletionRefused,
};
use inkline::history::History;
use inkline::model::{Document, Layer, Stroke, StrokePoint};
use inkline::selection::{pickable_strokes, StrokeRef};

fn bits(value: f32) -> u32 {
    value.to_bits()
}

fn stroke(id: u64) -> Stroke {
    Stroke {
        id,
        points: vec![StrokePoint::new(bits(0.0), bits(0.0), bits(1.0))],
        color: [bits(0.0), bits(0.0), bits(0.0), bits(1.0)],
        width_scale: bits(1.0),
    }
}

fn document_with_strokes(ids: &[u64]) -> Document {
    let mut document = Document::new(bits(100.0), bits(100.0));
    for id in ids {
        document.layers[0].strokes.push(stroke(*id));
    }
    document
}

fn select(layer_id: u64, stroke_id: u64) -> StrokeRef {
    StrokeRef { layer_id, stroke_id }
}

#[test]
fn collect_follows_selection_order_and_skips_missing() {
    let document = document_with_strokes(&[1, 2, 3]);
    let selected = [select(1, 3), select(2, 1), select(1, 9), select(1, 1)];
    let strokes = collect_strokes(&document, &selected, 1);
    assert_eq!(strokes.iter().map(|s| s.id).collect::<Vec<_>>(), vec![3, 1]);
}

#[test]
fn stroke_indices_are_descending() {
    let document = document_with_strokes(&[1, 2, 3, 4]);
    let selected = [select(1, 1), select(1, 3), select(1, 4), select(2, 2)];
    assert_eq!(stroke_indices(&document, &selected, 1), vec![3, 2, 0]);
    assert!(stroke_indices(&document, &selected, 2).is_empty());
}

#[test]
fn delete_selected_builds_a_removal() {
    let mut document = document_with_strokes(&[1, 2, 3]);
    let selected = [select(1, 2)];
    let command = delete_selected_command(&document, &selected).unwrap();
    match &command {
        Command::RemoveStrokes { layer_id, strokes, indices } => {
            assert_eq!(*layer_id, 1);
            assert_eq!(strokes.len(), 1);
            assert_eq!(strokes[0].id, 2);
            assert_eq!(indices, &vec![1]);
        }
        _ => panic!("expected a removal"),
    }
    let initial = document.clone();
    let mut history = History::new();
    history.execute(command, &mut document);
    assert_eq!(document.layers[0].strokes.len(), 2);
    assert!(history.undo(&mut document));
    assert_eq!(document, initial);
    assert!(delete_selected_command(&document, &[select(1, 9)]).is_none());
}

#[test]
fn recolor_changes_only_colour() {
    let mut document = document_with_strokes(&[1, 2]);
    let red = [bits(1.0), bits(0.0), bits(0.0), bits(1.0)];
    assert!(recolor_command(&document, &[], red).is_none());
    let command = recolor_command(&document, &[select(1, 2)], red).unwrap();
    let initial = document.clone();
    let mut history = History::new();
    history.execute(command, &mut document);
    assert_eq!(document.layers[0].strokes[1].color, red);
    assert_eq!(document.layers[0].strokes[0], initial.layers[0].strokes[0]);
    history.undo(&mut document);
    assert_eq!(document, initial);
}

#[test]
fn new_layer_command_goes_on_top() {
    let mut document = Document::new(bits(100.0), bits(100.0));
    let id = document.allocate_layer_id();
    let command = new_layer_command(&document, id);
    let mut history = History::new();
    history.execute(command, &mut document);
    assert_eq!(document.layers.len(), 2);
    assert_eq!(document.layers[1].id, 2);
    assert_eq!(document.layers[1].name, "Layer 2");
    assert_eq!(document.active_layer_id, 2);
    history.undo(&mut document);
    assert_eq!(document.layers.len(), 1);
    assert_eq!(document.active_layer_id, 1);
}

#[test]
fn deleting_the_active_layer_picks_a_neighbour() {
    let mut document = Document::new(bits(100.0), bits(100.0));
    assert_eq!(
        delete_active_layer_command(&document).unwrap_err(),
        LayerDeletionRefused::LastLayer
    );
    document.layers.push(Layer::new(2, "Layer 2"));
    document.layers.push(Layer::new(3, "Layer 3"));
    document.active_layer_id = 2;
    let command = delete_active_layer_command(&document).unwrap();
    match &command {
        Command::RemoveLayer { index, new_active_layer_id, previous_active_layer_id, .. } => {
            assert_eq!(*index, 1);
            assert_eq!(*new_active_layer_id, 3);
            assert_eq!(*previous_active_layer_id, 2);
        }
        _ => panic!("expected a layer removal"),
    }
    document.active_layer_id = 3;
    match delete_active_layer_command(&document).unwrap() {
        Command::RemoveLayer { new_active_layer_id, .. } => assert_eq!(new_active_layer_id, 2),
        _ => panic!("expected a layer removal"),
    }
    document.active_layer_id = 8;
    assert_eq!(
        delete_active_layer_command(&document).unwrap_err(),
        LayerDeletionRefused::NoActiveLayer
    );
}

#[test]
fn reorder_command_checks_range() {
    let mut document = Document::new(bits(100.0), bits(100.0));
    document.layers.push(Layer::new(2, "Layer 2"));
    assert!(reorder_command(&document, 0, 0).is_none());
    assert!(reorder_command(&document, 0, 2).is_none());
    assert_eq!(
        reorder_command(&document, 1, 0),
        Some(Command::ReorderLayer { from: 1, to: 0 })
    );
}

#[test]
fn add_stroke_command_appends_to_the_layer() {
    let document = document_with_strokes(&[1, 2]);
    match add_stroke_command(&document, 1, stroke(3)) {
        Command::AddStroke { index, .. } => assert_eq!(index, 2),
        _ => panic!("expected a stroke addition"),
    }
    match add_stroke_command(&document, 4, stroke(3)) {
        Command::AddStroke { index, .. } => assert_eq!(index, 0),
        _ => panic!("expected a stroke addition"),
    }
}

#[test]
fn history_undo_redo_round_trip() {
    let mut document = document_with_strokes(&[1]);
    let initial = document.clone();
    let mut history = History::new();
    assert!(!history.undo(&mut document));
    assert!(!history.redo(&mut document));
    history.execute(
        Command::AddStroke { layer_id: 1, stroke: stroke(2), index: 0 },
        &mut document,
    );
    let added = document.clone();
    assert_eq!(history.revision, 1);
    assert!(history.undo(&mut document));
    assert_eq!(document, initial);
    assert_eq!(history.undo.len(), 0);
    assert_eq!(history.redo.len(), 1);
    assert!(history.redo(&mut document));
    assert_eq!(document, added);
    assert_eq!(history.undo.len(), 1);
    assert_eq!(history.redo.len(), 0);
    assert_eq!(history.revision, 3);
    history.undo(&mut document);
    history.execute(
        Command::SetBackgroundColor { before: document.background_color, after: [0, 0, 0, 0] },
        &mut document,
    );
    assert_eq!(history.redo.len(), 0);
    history.reset();
    assert_eq!(history.undo.len(), 0);
    assert_eq!(history.revision, 6);
}

#[test]
fn pickable_strokes_skip_hidden_layers_and_empty_strokes() {
    let mut document = document_with_strokes(&[1, 2]);
    document.layers[0].strokes[1].points.clear();
    let mut hidden = Layer::new(2, "Hidden");
    hidden.visible = false;
    hidden.strokes.push(stroke(7));
    document.layers.push(hidden);
    let mut shown = Layer::new(3, "Shown");
    shown.strokes.push(stroke(8));
    document.layers.push(shown);
    let found = pickable_strokes(&document);
    let refs: Vec<(u64, u64, usize, usize)> = found
        .iter()
        .map(|p| (p.reference.layer_id, p.reference.stroke_id, p.layer_index, p.stroke_index))
        .collect();
    assert_eq!(refs, vec![(1, 1, 0, 0), (3, 8, 2, 0)]);
}

#[test]
fn undoing_every_command_restores_the_document() {
    let mut document = document_with_strokes(&[1, 2, 3]);
    let initial = document.clone();
    let mut history = History::new();
    let add = add_stroke_command(&document, 1, stroke(4));
    history.execute(add, &mut document);
    let layer = new_layer_command(&document, 2);
    history.execute(layer, &mut document);
    let removal = delete_selected_command(&document, &[select(2, 9)]);
    assert!(removal.is_none());
    document.active_layer_id = 1;
    let removal = delete_selected_command(&document, &[select(1, 2)]).unwrap();
    history.execute(removal, &mut document);
    assert_eq!(history.undo.len(), 3);
    assert!(history.undo(&mut document));
    assert!(history.undo(&mut document));
    assert!(history.undo(&mut document));
    assert!(!history.undo(&mut document));
    assert_eq!(document.layers, initial.layers);
    assert_eq!(history.redo.len(), 3);
}

#[test]
fn deleting_several_strokes_and_undoing_restores_their_order() {
    let mut document = document_with_strokes(&[1, 2, 3]);
    let selected = [select(1, 1), select(1, 3)];
    let command = delete_selected_command(&document, &selected).unwrap();
    match &command {
        Command::RemoveStrokes { strokes, indices, .. } => {
            assert_eq!(indices, &vec![2, 0]);
            let ids: Vec<u64> = strokes.iter().map(|s| s.id).collect();
            assert_eq!(ids, vec![3, 1]);
        }
        _ => panic!("expected a removal"),
    }
    let initial = document.clone();
    let mut history = History::new();
    history.execute(command, &mut document);
    let ids: Vec<u64> = document.layers[0].strokes.iter().map(|s| s.id).collect();
    assert_eq!(ids, vec![2]);
    assert!(history.undo(&mut document));
    assert_eq!(document, initial);
}
