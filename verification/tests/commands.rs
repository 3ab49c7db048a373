use inkline::commands::Command;
use inkline::model::{Document, Layer, Stroke, StrokePoint};

fn bits(value: f32) -> u32 {
    value.to_bits()
}

fn stroke(id: u64) -> Stroke {
    Stroke {
        id,
        points: vec![StrokePoint::new(bits(0.0), bits(0.0), bits(1.0))],
        color: [bits(0.0), bits(0.0), bits(0.0), bits(1.0)],
        width_scale: bits(1.0),
    }
}

#[test]
fn add_and_revert_stroke_round_trip() {
    let mut document = Document::new(bits(100.0), bits(100.0));
    let command = Command::AddStroke {
        layer_id: 1,
        stroke: stroke(7),
        index: 0,
    };

    command.apply(&mut document);
    assert_eq!(document.layer(1).unwrap().strokes.len(), 1);

    command.revert(&mut document);
    assert!(document.layer(1).unwrap().strokes.is_empty());
}

#[test]
fn modify_strokes_applies_and_reverts() {
    let mut document = Document::new(bits(100.0), bits(100.0));
    document.layer_mut(1).unwrap().strokes.push(stroke(1));

    let before = document.layer(1).unwrap().strokes.clone();
    let after = vec![Stroke {
        color: [bits(1.0), bits(0.0), bits(0.0), bits(1.0)],
        ..stroke(1)
    }];
    let command = Command::ModifyStrokes {
        layer_id: 1,
        before,
        after,
    };

    command.apply(&mut document);
    assert_eq!(f32::from_bits(document.layer(1).unwrap().strokes[0].color[0]), 1.0);

    command.revert(&mut document);
    assert_eq!(f32::from_bits(document.layer(1).unwrap().strokes[0].color[0]), 0.0);
}

#[test]
fn reorder_layer_is_reversible() {
    let mut document = Document::new(bits(100.0), bits(100.0));
    document.next_layer_id = 3;
    document.layers.push(Layer::new(2, "Layer 2"));
    let initial = document.layers.clone();
    let command = Command::ReorderLayer { from: 0, to: 1 };

    command.apply(&mut document);
    assert_eq!(document.layers[0].id, 2);

    command.revert(&mut document);
    assert_eq!(document.layers, initial);
}

#[test]
fn background_color_change_is_reversible() {
    let mut document = Document::new(bits(100.0), bits(100.0));
    let before = document.background_color;
    let after = [bits(0.2), bits(0.4), bits(0.6), bits(0.8)];
    let command = Command::SetBackgroundColor { before, after };

    command.apply(&mut document);
    assert_eq!(document.background_color, after);

    command.revert(&mut document);
    assert_eq!(document.background_color, before);
}

fn document_with_strokes(ids: &[u64]) -> Document {
    let mut document = Document::new(bits(100.0), bits(100.0));
    for id in ids {
        document.layer_mut(1).unwrap().strokes.push(stroke(*id));
    }
    document
}

fn stroke_ids(document: &Document, layer_id: u64) -> Vec<u64> {
    document
        .layer(layer_id)
        .unwrap()
        .strokes
        .iter()
        .map(|s| s.id)
        .collect()
}

#[test]
fn add_stroke_clamps_index_to_the_end() {
    let mut document = document_with_strokes(&[1, 2]);
    let command = Command::AddStroke {
        layer_id: 1,
        stroke: stroke(9),
        index: 40,
    };
    command.apply(&mut document);
    assert_eq!(stroke_ids(&document, 1), vec![1, 2, 9]);
    command.revert(&mut document);
    assert_eq!(stroke_ids(&document, 1), vec![1, 2]);
}

#[test]
fn add_stroke_to_missing_layer_changes_nothing() {
    let mut document = document_with_strokes(&[1]);
    let initial = document.clone();
    let command = Command::AddStroke {
        layer_id: 5,
        stroke: stroke(9),
        index: 0,
    };
    command.apply(&mut document);
    assert_eq!(document, initial);
    command.revert(&mut document);
    assert_eq!(document, initial);
}

#[test]
fn remove_strokes_round_trip_restores_positions() {
    let mut document = document_with_strokes(&[1, 2, 3, 4, 5]);
    let initial = document.clone();
    let command = Command::RemoveStrokes {
        layer_id: 1,
        strokes: vec![stroke(4), stroke(2)],
        indices: vec![3, 1],
    };
    command.apply(&mut document);
    assert_eq!(stroke_ids(&document, 1), vec![1, 3, 5]);
    command.revert(&mut document);
    assert_eq!(document, initial);
}

#[test]
fn remove_strokes_reinserts_by_ascending_position() {
    let mut document = document_with_strokes(&[1, 3]);
    let command = Command::RemoveStrokes {
        layer_id: 1,
        strokes: vec![stroke(2), stroke(0)],
        indices: vec![1, 0],
    };
    command.revert(&mut document);
    assert_eq!(stroke_ids(&document, 1), vec![0, 2, 1, 3]);
}

#[test]
fn modify_strokes_replaces_only_matching_ids() {
    let mut document = document_with_strokes(&[1, 2]);
    let changed = Stroke {
        width_scale: bits(3.0),
        ..stroke(2)
    };
    let missing = stroke(8);
    let command = Command::ModifyStrokes {
        layer_id: 1,
        before: vec![stroke(2)],
        after: vec![changed.clone(), missing],
    };
    command.apply(&mut document);
    assert_eq!(stroke_ids(&document, 1), vec![1, 2]);
    assert_eq!(document.layer(1).unwrap().strokes[1], changed);
    command.revert(&mut document);
    assert_eq!(document.layer(1).unwrap().strokes[1], stroke(2));
}

#[test]
fn add_layer_round_trip() {
    let mut document = Document::new(bits(100.0), bits(100.0));
    let initial = document.clone();
    let command = Command::AddLayer {
        layer: Layer::new(2, "Layer 2"),
        index: 0,
        previous_active_layer_id: 1,
        new_active_layer_id: 2,
    };
    command.apply(&mut document);
    assert_eq!(document.layers[0].id, 2);
    assert_eq!(document.active_layer_id, 2);
    command.revert(&mut document);
    assert_eq!(document, initial);
}

#[test]
fn remove_layer_round_trip() {
    let mut document = Document::new(bits(100.0), bits(100.0));
    document.layers.push(Layer::new(2, "Layer 2"));
    document.layers.push(Layer::new(3, "Layer 3"));
    document.active_layer_id = 2;
    let initial = document.clone();
    let command = Command::RemoveLayer {
        layer: Layer::new(2, "Layer 2"),
        index: 1,
        previous_active_layer_id: 2,
        new_active_layer_id: 3,
    };
    command.apply(&mut document);
    assert_eq!(document.layers.iter().map(|l| l.id).collect::<Vec<_>>(), vec![1, 3]);
    assert_eq!(document.active_layer_id, 3);
    command.revert(&mut document);
    assert_eq!(document, initial);
}

#[test]
fn remove_layer_with_stale_index_removes_by_id() {
    let mut document = Document::new(bits(100.0), bits(100.0));
    document.layers.push(Layer::new(2, "Layer 2"));
    let command = Command::RemoveLayer {
        layer: Layer::new(1, "Layer 1"),
        index: 7,
        previous_active_layer_id: 1,
        new_active_layer_id: 2,
    };
    command.apply(&mut document);
    assert_eq!(document.layers.len(), 1);
    assert_eq!(document.layers[0].id, 2);
}

#[test]
fn reorder_out_of_range_changes_nothing() {
    let mut document = Document::new(bits(100.0), bits(100.0));
    let initial = document.clone();
    Command::ReorderLayer { from: 4, to: 0 }.apply(&mut document);
    assert_eq!(document, initial);
}

#[test]
fn set_layer_round_trip() {
    let mut document = Document::new(bits(100.0), bits(100.0));
    let initial = document.clone();
    let before = document.layers[0].clone();
    let mut after = before.clone();
    after.visible = false;
    after.name = "Hidden".to_string();
    let command = Command::SetLayer { before, after };
    command.apply(&mut document);
    assert!(!document.layers[0].visible);
    assert_eq!(document.layers[0].name, "Hidden");
    command.revert(&mut document);
    assert_eq!(document, initial);
}
