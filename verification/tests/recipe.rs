use freeport_core::recipe::{
    brush_mat, item_of, lights, recipe_name, recipe_of, ItemError, ItemPlan, RecipeError,
};
use freeport_core::field::{CONCRETE, GLASS, LAMP, LIT, PLATE, STREET, TERRAIN};
use freeport_core::recipe::{
    axis_of, each_of, is_window, mat_of, material, on_side, op_of, pane_of, repeats, room_of,
    shape_of, south_of, storeys_for, Axis, Each, Op, Shape,
};

#[test]
fn every_material_a_recipe_names() {
    assert_eq!(material("terrain"), Some(TERRAIN));
    assert_eq!(material("concrete"), Some(CONCRETE));
    assert_eq!(material("plate"), Some(PLATE));
    assert_eq!(material("glass"), Some(GLASS));
    assert_eq!(material("lamp"), Some(LAMP));
    assert_eq!(material("lit"), Some(LIT));
    assert_eq!(material("street"), Some(STREET));
}

#[test]
fn a_material_nobody_named_is_nothing() {
    assert_eq!(material("cheese"), None);
    assert_eq!(material(""), None);
    assert_eq!(material("Glass"), None);
    assert_eq!(material("glasss"), None);
}

#[test]
fn a_brush_made_of_nothing_named_is_concrete() {
    assert_eq!(mat_of(None), Some(CONCRETE));
    assert_eq!(mat_of(Some("lamp")), Some(LAMP));
    assert_eq!(mat_of(Some("tin")), None);
}

#[test]
fn each_word_reads_as_its_repeat() {
    assert_eq!(each_of(Some("storey")), Each::Storey);
    assert_eq!(each_of(Some("upper")), Each::Upper);
    assert_eq!(each_of(Some("flight")), Each::Flight);
    assert_eq!(each_of(Some("top")), Each::Top);
    assert_eq!(each_of(Some("weekly")), Each::Once);
    assert_eq!(each_of(None), Each::Once);
}

#[test]
fn a_shape_is_read_and_an_unknown_one_refused() {
    assert_eq!(shape_of(Some("box")), Some(Shape::Box));
    assert_eq!(shape_of(Some("cyl")), Some(Shape::Cyl));
    assert_eq!(shape_of(Some("sphere")), Some(Shape::Sphere));
    assert_eq!(shape_of(Some("stairs")), Some(Shape::Stairs));
    assert_eq!(shape_of(Some("cone")), None);
    assert_eq!(shape_of(None), None);
    assert!(is_window(Some("window")));
    assert!(!is_window(Some("box")));
}

#[test]
fn an_op_axis_and_direction_are_read_with_their_defaults() {
    assert_eq!(op_of(Some("cut")), Op::Cut);
    assert_eq!(op_of(Some("add")), Op::Add);
    assert_eq!(op_of(None), Op::Add);
    assert_eq!(axis_of(Some("n")), Axis::North);
    assert_eq!(axis_of(Some("e")), Axis::East);
    assert_eq!(axis_of(Some("up")), Axis::Up);
    assert_eq!(axis_of(None), Axis::Up);
    assert!(south_of(Some("s")));
    assert!(!south_of(Some("n")));
    assert!(!south_of(None));
}

#[test]
fn a_building_is_compiled_for_one_to_sixty_four_storeys() {
    assert_eq!(storeys_for(0), 1);
    assert_eq!(storeys_for(1), 1);
    assert_eq!(storeys_for(7), 7);
    assert_eq!(storeys_for(64), 64);
    assert_eq!(storeys_for(1000), 64);
}

#[test]
fn a_brush_repeats_as_its_each_says() {
    assert_eq!(repeats(Each::Storey, 3), vec![(0, false), (1, true), (2, false)]);
    assert_eq!(repeats(Each::Upper, 3), vec![(1, false), (2, true)]);
    assert_eq!(repeats(Each::Flight, 3), vec![(0, false), (1, true)]);
    assert_eq!(repeats(Each::Top, 3), vec![(3, true)]);
    assert_eq!(repeats(Each::Once, 3), vec![(0, false)]);
    assert_eq!(repeats(Each::Top, 4), vec![(4, false)]);
}

#[test]
fn a_one_storey_building_has_no_flight_and_no_upper_storey() {
    assert!(repeats(Each::Flight, 1).is_empty());
    assert!(repeats(Each::Upper, 1).is_empty());
    assert_eq!(repeats(Each::Storey, 1), vec![(0, false)]);
}

#[test]
fn every_storey_brush_is_laid_once_a_storey_and_mirrored_on_odd_ones() {
    for s in 1..=64u32 {
        let r = repeats(Each::Storey, s);
        assert_eq!(r.len(), s as usize);
        for (k, (up, odd)) in r.iter().enumerate() {
            assert_eq!(*up as usize, k);
            assert_eq!(*odd, k % 2 == 1);
        }
    }
}

#[test]
fn a_room_is_a_cut_that_says_so_and_rooms_are_counted_in_order() {
    let mut rooms = 0usize;
    assert_eq!(room_of(true, Op::Cut, &mut rooms), 0);
    assert_eq!(room_of(false, Op::Cut, &mut rooms), -1);
    assert_eq!(room_of(true, Op::Add, &mut rooms), -1);
    assert_eq!(room_of(true, Op::Cut, &mut rooms), 1);
    assert_eq!(rooms, 2);
}

#[test]
fn a_pane_is_lit_as_the_recipe_says_or_as_the_dice_say() {
    assert_eq!(pane_of(Some(true), 0, 99), LIT);
    assert_eq!(pane_of(Some(false), 0, 99), GLASS);
    // The hash of window 0 of seed 99 is 3,092,861,348, over the line.
    assert_eq!(pane_of(None, 0, 99), LIT);
    let mut lit = 0;
    for index in 0..2000usize {
        if pane_of(None, index, 5) == LIT {
            lit += 1;
        }
    }
    assert!(lit > 900 && lit < 1300, "{lit} of 2000 lit");
}

#[test]
fn a_window_on_an_east_or_west_face_turns_its_width_north() {
    assert!(on_side('e'));
    assert!(on_side('w'));
    assert!(!on_side('n'));
    assert!(!on_side('s'));
}

#[test]
fn an_item_is_refused_for_its_at_then_its_size_then_its_shape_then_its_material() {
    let r = item_of(Some("blob"), None, Some("cheese"), None, None, None, None, false, false);
    assert_eq!(r, Err(ItemError::NoAt));
    let r = item_of(Some("blob"), None, Some("cheese"), None, None, None, None, true, false);
    assert_eq!(r, Err(ItemError::NoSize));
    let r = item_of(Some("blob"), None, Some("cheese"), None, None, None, None, true, true);
    assert_eq!(r, Err(ItemError::NoShape));
    let r = item_of(None, None, None, None, None, None, None, true, true);
    assert_eq!(r, Err(ItemError::NoShape));
    let r = item_of(Some("box"), None, Some("cheese"), None, None, None, None, true, true);
    assert_eq!(r, Err(ItemError::NoMaterial));
}

#[test]
fn a_window_needs_no_material_and_faces_north_unless_told() {
    let r = item_of(Some("window"), None, Some("cheese"), Some("upper"), None, None, None, true, true);
    assert_eq!(r, Ok(ItemPlan::Window { each: Each::Upper, face: 'n' }));
    let r = item_of(Some("window"), None, None, None, None, None, Some("east"), true, true);
    assert_eq!(r, Ok(ItemPlan::Window { each: Each::Once, face: 'e' }));
    let r = item_of(Some("window"), None, None, None, None, None, Some(""), true, true);
    assert_eq!(r, Ok(ItemPlan::Window { each: Each::Once, face: 'n' }));
}

#[test]
fn a_brush_is_an_added_concrete_upright_once_unless_its_words_say_otherwise() {
    let r = item_of(Some("cyl"), None, None, None, None, None, None, true, true);
    assert_eq!(
        r,
        Ok(ItemPlan::Brush {
            op: Op::Add,
            shape: Shape::Cyl,
            mat: CONCRETE,
            each: Each::Once,
            axis: Axis::Up,
            south: false
        })
    );
    let r = item_of(
        Some("stairs"),
        Some("cut"),
        Some("glass"),
        Some("flight"),
        Some("e"),
        Some("s"),
        None,
        true,
        true,
    );
    assert_eq!(
        r,
        Ok(ItemPlan::Brush {
            op: Op::Cut,
            shape: Shape::Stairs,
            mat: GLASS,
            each: Each::Flight,
            axis: Axis::East,
            south: true
        })
    );
}

#[test]
fn a_recipe_is_refused_for_its_footprint_then_its_first_refused_item() {
    let window = Ok(ItemPlan::Window { each: Each::Once, face: 'n' });
    let items = vec![window, Err(ItemError::NoShape), Err(ItemError::NoAt)];
    assert_eq!(recipe_of(false, &items), Err(RecipeError::NoFootprint));
    assert_eq!(recipe_of(true, &items), Err(RecipeError::Item(ItemError::NoShape)));
    assert_eq!(recipe_of(true, &vec![window, window]), Ok(vec![
        ItemPlan::Window { each: Each::Once, face: 'n' },
        ItemPlan::Window { each: Each::Once, face: 'n' },
    ]));
    assert_eq!(recipe_of(true, &Vec::new()), Ok(Vec::new()));
}

#[test]
fn a_recipe_with_no_name_is_called_recipe() {
    assert_eq!(recipe_name(None), "recipe");
    assert_eq!(recipe_name(Some("hangar")), "hangar");
}

#[test]
fn a_cut_is_made_of_terrain_and_only_an_added_lamp_lights() {
    assert_eq!(brush_mat(Op::Cut, GLASS), TERRAIN);
    assert_eq!(brush_mat(Op::Add, GLASS), GLASS);
    assert!(lights(Op::Add, LAMP));
    assert!(!lights(Op::Cut, LAMP));
    assert!(!lights(Op::Add, LIT));
}
