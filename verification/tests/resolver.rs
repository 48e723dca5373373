use production_resolver::bom::Tools;
use production_resolver::bom::Transformation;
use production_resolver::resolver::build_bom_batch;
use production_resolver::resolver::dispatch_event;
use production_resolver::resolver::get_cheapest_path;
use production_resolver::resolver::map_flat_recipe;
use production_resolver::resolver::plan_bom_batch;
use production_resolver::resolver::EventAction;
use production_resolver::resolver::ResolveError;

fn recipe() -> Vec<Transformation> {
    vec![
        Transformation {
            id: 1,
            from_piece: 1,
            to_piece: 2,
            cost: 1,
            tool: Tools::T1,
            quantity: 1,
        },
        Transformation {
            id: 2,
            from_piece: 2,
            to_piece: 5,
            cost: 100,
            tool: Tools::T2,
            quantity: 1,
        },
        Transformation {
            id: 3,
            from_piece: 2,
            to_piece: 5,
            cost: 50,
            tool: Tools::T3,
            quantity: 1,
        },
        Transformation {
            id: 4,
            from_piece: 5,
            to_piece: 9,
            cost: 100,
            tool: Tools::T2,
            quantity: 1,
        },
    ]
}

#[test]
fn test_map_flat_recipe() {
    let r = recipe();
    let index = map_flat_recipe(r.clone());

    assert_eq!(index.len(), 3);
    assert_eq!(index.get(2), Some(&vec![r[0].clone()]));
    assert_eq!(index.get(5), Some(&vec![r[1].clone(), r[2].clone()]));
    assert_eq!(index.get(9), Some(&vec![r[3].clone()]));
    assert_eq!(index.get(1), None);
}

#[test]
fn test_get_cheapest_path() {
    let r = recipe();
    let map = map_flat_recipe(r.clone());

    let result = get_cheapest_path(9, &map);
    let expected = vec![r[3].clone(), r[2].clone(), r[0].clone()];
    assert_eq!(expected, result);
}

#[test]
fn test_equal_cost_tie_breaks_to_first() {
    // tie-breaking between equal-cost producers is first-encountered, in
    // recipe order
    let edges = vec![
        Transformation {
            id: 8,
            from_piece: 1,
            to_piece: 5,
            cost: 50,
            tool: Tools::T1,
            quantity: 1,
        },
        Transformation {
            id: 9,
            from_piece: 2,
            to_piece: 5,
            cost: 50,
            tool: Tools::T2,
            quantity: 1,
        },
    ];
    let map = map_flat_recipe(edges.clone());
    let result = get_cheapest_path(5, &map);
    assert_eq!(result, vec![edges[0].clone()]);
}

#[test]
fn test_build_bom_batch_numbering() {
    let r = recipe();
    let map = map_flat_recipe(r.clone());
    let chain = get_cheapest_path(9, &map);

    let batch = build_bom_batch(77, 2, &chain);
    assert_eq!(batch.len(), 6);
    for entry in batch.iter() {
        assert_eq!(entry.id, 0);
        assert_eq!(entry.order_id, 77);
        assert_eq!(entry.pieces_total, 2);
        assert_eq!(entry.steps_total, 3);
    }
    // one full chain per unit, steps numbered root-to-finished: the chain
    // is [4, 3, 1] finished-to-root, so steps run 1, 3, 4
    let expected: Vec<(i32, i32, i64)> = vec![
        (1, 1, 1),
        (1, 2, 3),
        (1, 3, 4),
        (2, 1, 1),
        (2, 2, 3),
        (2, 3, 4),
    ];
    for (entry, (piece_number, step_number, transformation_id)) in
        batch.iter().zip(expected.iter())
    {
        assert_eq!(entry.piece_number, *piece_number);
        assert_eq!(entry.step_number, *step_number);
        assert_eq!(entry.transformation_id, *transformation_id);
    }
}

#[test]
fn test_build_bom_batch_zero_quantity() {
    let r = recipe();
    let map = map_flat_recipe(r.clone());
    let chain = get_cheapest_path(9, &map);
    assert_eq!(build_bom_batch(77, 0, &chain).len(), 0);
}

#[test]
fn test_plan_bom_batch_resolves_order() {
    let batch = plan_bom_batch(42, 9, 1, recipe()).unwrap();
    assert_eq!(batch.len(), 3);
    assert_eq!(batch[0].transformation_id, 1);
    assert_eq!(batch[1].transformation_id, 3);
    assert_eq!(batch[2].transformation_id, 4);
    assert_eq!(batch[0].order_id, 42);
}

#[test]
fn test_plan_bom_batch_empty_chain() {
    // piece 7 has no producing transformation: the plan must fail rather
    // than emit a zero-step batch
    let result = plan_bom_batch(42, 7, 5, recipe());
    assert_eq!(result, Err(ResolveError::EmptyChain));

    let empty = plan_bom_batch(42, 9, 5, Vec::new());
    assert_eq!(empty, Err(ResolveError::EmptyChain));
}

#[test]
fn test_redelivered_order_plans_identical_batch() {
    // at-least-once, not exactly-once: the engine suppresses nothing on a
    // second delivery of the same event; it plans a second, equal batch
    let first = plan_bom_batch(42, 9, 2, recipe()).unwrap();
    let second = plan_bom_batch(42, 9, 2, recipe()).unwrap();
    assert_eq!(first, second);
    assert_eq!(first.len(), 6);
}

#[test]
fn test_dispatch_new_order() {
    match dispatch_event("new_order", "42") {
        Ok(EventAction::ResolveOrder(id)) => assert_eq!(id, 42),
        other => panic!("unexpected action: {:?}", other),
    }
}

#[test]
fn test_dispatch_new_order_bad_payload() {
    assert_eq!(
        dispatch_event("new_order", "forty-two").unwrap_err(),
        ResolveError::InvalidOrderPayload
    );
}

#[test]
fn test_dispatch_new_bom_entry() {
    match dispatch_event("new_bom_entry", "10,20,30") {
        Ok(EventAction::CheckBomBatch(ids)) => assert_eq!(ids, vec![10, 20, 30]),
        other => panic!("unexpected action: {:?}", other),
    }
}

#[test]
fn test_dispatch_new_bom_entry_invalid_payload() {
    // empty and fully-unparseable id lists are explicit errors, and no
    // lookup ever happens for them
    assert_eq!(
        dispatch_event("new_bom_entry", "").unwrap_err(),
        ResolveError::InvalidBomPayload
    );
    assert_eq!(
        dispatch_event("new_bom_entry", "x,y,z").unwrap_err(),
        ResolveError::InvalidBomPayload
    );
}

#[test]
fn test_dispatch_unknown_channel() {
    match dispatch_event("telemetry", "whatever") {
        Ok(EventAction::Ignore) => {}
        other => panic!("unexpected action: {:?}", other),
    }
}
