use production_resolver::bom::Bom;
use production_resolver::bom::RecipeBuilder;
use production_resolver::bom::Tools;
use production_resolver::bom::Transformation;
use production_resolver::resolver::config::LineConfig;
use production_resolver::resolver::time::FactoryTime;
use production_resolver::NotificationChannel;

#[test]
fn test_tools_from_name() {
    assert_eq!(Tools::from("T1".to_string()), Tools::T1);
    assert_eq!(Tools::from("T4".to_string()), Tools::T4);
    assert_eq!(Tools::from("T6".to_string()), Tools::T6);
    assert_eq!(Tools::from("T7".to_string()), Tools::INVALID);
    assert_eq!(Tools::from("".to_string()), Tools::INVALID);
}

#[test]
fn test_notification_channel() {
    assert_eq!(
        NotificationChannel::from_name("new_order"),
        NotificationChannel::NewOrder
    );
    assert_eq!(
        NotificationChannel::from_name("new_bom_entry"),
        NotificationChannel::NewBomEntry
    );
    assert_eq!(
        NotificationChannel::from_name("something_else"),
        NotificationChannel::Unknown
    );
    assert_eq!(NotificationChannel::NewOrder.as_str(), "new_order");
    assert_eq!(NotificationChannel::NewBomEntry.as_str(), "new_bom_entry");
    assert_eq!(NotificationChannel::Unknown.as_str(), "unknown");
    assert_eq!(
        NotificationChannel::all_names(),
        vec!["new_order", "new_bom_entry"]
    );
}

#[test]
fn test_bom_new() {
    let bom = Bom::new(7, 3, 1, 2, 4, 5);
    assert_eq!(bom.id, 0);
    assert_eq!(bom.order_id, 7);
    assert_eq!(bom.transformation_id, 3);
    assert_eq!(bom.piece_number, 1);
    assert_eq!(bom.pieces_total, 2);
    assert_eq!(bom.step_number, 4);
    assert_eq!(bom.steps_total, 5);
}

#[test]
fn test_recipe_builder() {
    let t_final = Transformation {
        id: 4,
        from_piece: 5,
        to_piece: 9,
        cost: 100,
        tool: Tools::T2,
        quantity: 1,
    };
    let t_a = Transformation {
        id: 2,
        from_piece: 2,
        to_piece: 5,
        cost: 100,
        tool: Tools::T2,
        quantity: 1,
    };
    let t_b = Transformation {
        id: 3,
        from_piece: 2,
        to_piece: 5,
        cost: 50,
        tool: Tools::T3,
        quantity: 1,
    };

    let mut builder = RecipeBuilder::new(9);
    assert_eq!(builder.targets(), &vec![9]);

    assert!(!builder.absorb(vec![t_final.clone()]));
    assert_eq!(builder.targets(), &vec![5]);

    // a duplicated fetch is dropped, and the frontier holds each source
    // piece once
    assert!(!builder.absorb(vec![t_a.clone(), t_a.clone(), t_b.clone()]));
    assert_eq!(builder.targets(), &vec![2]);

    // an empty generation ends the build and changes nothing
    assert!(builder.absorb(Vec::new()));
    assert_eq!(builder.targets(), &vec![2]);

    assert_eq!(builder.into_recipe(), vec![t_final, t_a, t_b]);
}

#[test]
fn test_recipe_builder_dedups_across_generation() {
    // two pieces in one frontier can fetch the same edge twice, apart from
    // its twin: the generation keeps it once, the frontier is a set
    let e = Transformation {
        id: 21,
        from_piece: 100,
        to_piece: 9,
        cost: 10,
        tool: Tools::T1,
        quantity: 1,
    };
    let f = Transformation {
        id: 22,
        from_piece: 200,
        to_piece: 9,
        cost: 20,
        tool: Tools::T2,
        quantity: 1,
    };

    let mut builder = RecipeBuilder::new(9);
    assert!(!builder.absorb(vec![e.clone(), f.clone(), e.clone()]));
    assert_eq!(builder.targets(), &vec![100, 200]);
    assert_eq!(builder.into_recipe(), vec![e, f]);
}

#[test]
fn test_factory_time_checked_sub() {
    let a = FactoryTime::new(5, 9);
    assert_eq!(a.checked_sub(FactoryTime::new(2, 4)), Some(FactoryTime::new(3, 5)));

    // more days subtracted than available
    assert_eq!(FactoryTime::new(1, 2).checked_sub(FactoryTime::new(2, 0)), None);

    // slot borrow takes a day; needs a day beyond day one to borrow from
    assert_eq!(
        FactoryTime::new(5, 2).checked_sub(FactoryTime::new(1, 8)),
        Some(FactoryTime::new(3, 6))
    );
    assert_eq!(FactoryTime::new(2, 3).checked_sub(FactoryTime::new(1, 5)), None);

    // the subtrahend's slot may exceed one day's slots as long as the
    // single borrowed day covers it
    assert_eq!(
        FactoryTime::new(5, 2).checked_sub(FactoryTime::new(1, 13)),
        Some(FactoryTime::new(3, 1))
    );
}

#[test]
fn test_factory_time_add() {
    assert_eq!(
        FactoryTime::new(1, 5).add(FactoryTime::new(2, 4)),
        FactoryTime::new(3, 9)
    );
    // slots past the end of a day carry into the next day
    assert_eq!(
        FactoryTime::new(1, 8).add(FactoryTime::new(0, 7)),
        FactoryTime::new(2, 3)
    );
}

#[test]
fn test_factory_time_from_due_time() {
    // hand-over happens in the delivery window slot of the due day
    assert_eq!(FactoryTime::from_due_time(6), FactoryTime::new(6, 9));
}

#[test]
fn test_line_config_default() {
    let config = LineConfig::default();
    assert_eq!(config.id, 1);
    assert_eq!(config.selected_tools, [Tools::T1, Tools::T1]);
    assert_eq!(
        config.available_tools,
        [
            [Tools::T1, Tools::T2, Tools::T3],
            [Tools::T1, Tools::T2, Tools::T3]
        ]
    );
    assert_eq!(config.tool_change_time, 30);
}
