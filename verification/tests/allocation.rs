use flex_grow::Child;
use flex_grow::Container;
use flex_grow::ContainerBuilder;
use flex_grow::Error;
use flex_grow::Optionality;

#[test]
fn doc_scenario_sizes() {
    let container = Container::builder_in(50)
        .with_margin_between(1)
        .with(Child::new("name").clamp(5, 10))
        .with(Child::new("price").with_size(8).optional_with_priority(7))
        .with(Child::new("quantity").with_size(8).optional())
        .with(Child::new("total").with_size(8))
        .with(Child::new("comments").with_min(10).with_grow(2))
        .with(Child::new("vendor").with_size(60).optional_with_priority(9))
        .build()
        .unwrap();
    assert_eq!(container.sizes(), vec![7, 8, 8, 8, 15, 0]);
}

#[test]
fn scenario_with_quantity_priority() {
    let container = Container::builder_in(50)
        .with_margin_between(1)
        .with(Child::new("name").clamp(5, 10))
        .with(Child::new("price").with_size(8).optional_with_priority(7))
        .with(Child::new("quantity").with_size(8).optional_with_priority(8))
        .with(Child::new("total").with_size(8))
        .with(Child::new("comments").with_min(10).with_grow(2))
        .with(Child::new("vendor").with_size(60).optional_with_priority(9))
        .build()
        .unwrap();
    assert_eq!(container.sizes(), vec![7, 8, 8, 8, 15, 0]);
}

#[test]
fn failure_required_min_too_big() {
    let result = Container::builder_in(5)
        .with(Child::new("only").with_min(10))
        .build();
    assert!(matches!(result, Err(Error::NotEnoughSpace)));
}

#[test]
fn budget_conservation() {
    let container = Container::builder_in(23)
        .with_margin_between(2)
        .with(Child::new("a").with_min(3))
        .with(Child::new("b").clamp(2, 4))
        .with(Child::new("c").with_min(9).optional_with_priority(1))
        .build()
        .unwrap();
    let sizes = container.sizes();
    let seated = container
        .children()
        .iter()
        .filter(|c| c.size().is_some())
        .count();
    let total: usize = sizes.iter().sum::<usize>() + 2 * (seated - 1);
    assert!(total <= 23);
}

#[test]
fn minimum_respected() {
    let container = Container::builder_in(30)
        .with(Child::new("a").with_min(7))
        .with(Child::new("b").with_min(4).optional())
        .build()
        .unwrap();
    for child in container.children() {
        if let Some(size) = child.size() {
            assert!(size >= child.constraints().min);
        }
    }
}

#[test]
fn maximum_respected() {
    let container = Container::builder_in(100)
        .with(Child::new("a").clamp(2, 9))
        .with(Child::new("b").with_min(1))
        .build()
        .unwrap();
    assert_eq!(container.sizes()[0], 9);
    for child in container.children() {
        if let (Some(size), Some(max)) = (child.size(), child.constraints().max) {
            assert!(size <= max);
        }
    }
}

#[test]
fn required_always_seated() {
    let container = Container::builder_in(12)
        .with(Child::new("a").with_min(5))
        .with(Child::new("b").with_min(100).optional())
        .with(Child::new("c").with_min(6))
        .build()
        .unwrap();
    let children = container.children();
    assert!(children[0].size().is_some());
    assert!(children[2].size().is_some());
    assert_eq!(children[1].size(), None);
}

#[test]
fn priority_wins_regardless_of_insertion_order() {
    // the two optional children cannot both fit
    let first = Container::builder_in(10)
        .with(Child::new("low").with_size(6).optional_with_priority(1))
        .with(Child::new("high").with_size(6).optional_with_priority(9))
        .build()
        .unwrap();
    assert_eq!(first.sizes(), vec![0, 6]);

    let second = Container::builder_in(10)
        .with(Child::new("high").with_size(6).optional_with_priority(9))
        .with(Child::new("low").with_size(6).optional_with_priority(1))
        .build()
        .unwrap();
    assert_eq!(second.sizes(), vec![6, 0]);
}

#[test]
fn equal_priority_keeps_insertion_order() {
    let container = Container::builder_in(5)
        .with(Child::new("a").with_size(4).optional_with_priority(3))
        .with(Child::new("b").with_size(4).optional_with_priority(3))
        .build()
        .unwrap();
    assert_eq!(container.sizes(), vec![4, 0]);
}

#[test]
fn optional_cannot_save_required() {
    // the optional child is skipped in the end, but the required
    // children alone already do not fit, so the build fails
    let result = Container::builder_in(12)
        .with(Child::new("opt").with_min(12).optional_with_priority(9))
        .with(Child::new("r1").with_min(7))
        .with(Child::new("r2").with_min(6))
        .build();
    assert!(matches!(result, Err(Error::NotEnoughSpace)));

    // with one more unit of budget the required children fit and the
    // optional child is simply excluded
    let container = Container::builder_in(13)
        .with(Child::new("opt").with_min(13).optional_with_priority(9))
        .with(Child::new("r1").with_min(7))
        .with(Child::new("r2").with_min(6))
        .build()
        .unwrap();
    assert_eq!(container.children()[0].size(), None);
}

#[test]
fn fixed_size_unaffected_by_slack() {
    let container = Container::builder_in(1000)
        .with(Child::new("fixed").with_size(8))
        .with(Child::new("sponge").with_min(1).with_grow(5))
        .build()
        .unwrap();
    assert_eq!(container.sizes()[0], 8);
}

#[test]
fn all_at_max_leaves_remainder_undistributed() {
    let container = Container::builder_in(100)
        .with(Child::new("a").with_size(5))
        .with(Child::new("b").with_size(7))
        .build()
        .unwrap();
    assert_eq!(container.sizes(), vec![5, 7]);
}

#[test]
fn zero_grow_with_open_child_fills_exactly() {
    let container = Container::builder_in(20)
        .with(Child::new("a").with_size(5))
        .with(Child::new("b").with_min(3).with_grow(0))
        .build()
        .unwrap();
    // the open child absorbs the whole remainder one unit at a time
    assert_eq!(container.sizes(), vec![5, 15]);
}

#[test]
fn margin_only_between_seated_children() {
    let container = Container::builder_in(10)
        .with_margin_between(3)
        .with(Child::new("a").with_min(2))
        .with(Child::new("b").with_min(2))
        .build()
        .unwrap();
    assert_eq!(container.sizes(), vec![4, 3]);
}

#[test]
fn empty_builder_builds() {
    let container: Container<&str> = Container::builder_in(10).build().unwrap();
    let sizes: Vec<usize> = container.sizes();
    assert!(sizes.is_empty());
}

#[test]
fn zero_budget_fails_only_for_positive_required_minimum() {
    let ok = Container::builder_in(0)
        .with(Child::new("a").with_min(0).with_max(4))
        .build();
    assert!(ok.is_ok());
    let err = Container::builder_in(0)
        .with(Child::new("a").with_min(1))
        .build();
    assert!(matches!(err, Err(Error::NotEnoughSpace)));
}

#[test]
fn growth_proportional_to_weight_and_capacity() {
    // budget 12, two children seated at 1 each, both capped at 100,
    // capacities 99 each, weights 3 and 1
    let container = Container::builder_in(12)
        .with(Child::new("heavy").clamp(1, 100).with_grow(3))
        .with(Child::new("light").clamp(1, 100).with_grow(1))
        .build()
        .unwrap();
    // shares: 297 and 99, total 396, remaining 10 then 3
    // heavy: floor(297 * 10 / 396) = 7 -> size 8, remaining 3
    // light: floor(99 * 3 / 396) = 0 -> size 1, remaining 3
    // round-robin: heavy 9, light 2, heavy 10 -> remaining 0
    assert_eq!(container.sizes(), vec![10, 2]);
}

#[test]
fn content_and_accessors_carry_over() {
    let child = Child::new(42usize).clamp(2, 6).with_grow(7);
    assert_eq!(*child.content(), 42usize);
    assert_eq!(child.size(), None);
    let constraints = child.constraints();
    assert_eq!(constraints.min, 2);
    assert_eq!(constraints.max, Some(6));
    assert_eq!(constraints.grow, 7);
    assert!(matches!(constraints.optionality, Optionality::Required));

    let optional = Child::new("x").optional_with_priority(4);
    match optional.constraints().optionality {
        Optionality::Optional { priority } => assert_eq!(priority, 4),
        Optionality::Required => panic!("expected an optional child"),
    }
    let lowest = Child::new("y").optional();
    match lowest.constraints().optionality {
        Optionality::Optional { priority } => assert_eq!(priority, 0),
        Optionality::Required => panic!("expected an optional child"),
    }
}

#[test]
fn defaults_are_required_grow_one() {
    let child = Child::new(());
    let constraints = child.constraints();
    assert_eq!(constraints.min, 0);
    assert_eq!(constraints.max, None);
    assert_eq!(constraints.grow, 1);
    assert!(matches!(constraints.optionality, Optionality::Required));
    assert!(matches!(Optionality::default(), Optionality::Required));
}

#[test]
fn builder_add_matches_with() {
    let mut builder: ContainerBuilder<&str> = ContainerBuilder::with_available(20);
    builder.add(Child::new("a").with_min(4));
    builder.add(Child::new("b").with_size(6));
    let container = builder.build().unwrap();
    assert_eq!(container.sizes().len(), 2);
    assert_eq!(container.sizes()[1], 6);
}

#[test]
fn to_children_keeps_order_and_sizes() {
    let container = Container::builder_in(10)
        .with(Child::new("a").with_size(4))
        .with(Child::new("b").with_size(3))
        .build()
        .unwrap();
    let children = container.to_children();
    assert_eq!(*children[0].content(), "a");
    assert_eq!(children[0].size(), Some(4));
    assert_eq!(*children[1].content(), "b");
    assert_eq!(children[1].size(), Some(3));
}

#[test]
fn error_description() {
    let err = match Container::builder_in(1).with(Child::new("a").with_min(2)).build() {
        Err(e) => e,
        Ok(_) => panic!("expected a failure"),
    };
    assert_eq!(err, Error::NotEnoughSpace);
    assert_eq!(err.describe(), "Not enough space");
}

#[test]
fn unbounded_child_dominates_denominator() {
    // the maxless child's capacity counts as the whole remainder
    let container = Container::builder_in(20)
        .with(Child::new("capped").clamp(2, 4))
        .with(Child::new("open").with_min(2))
        .build()
        .unwrap();
    // remaining 16; shares: 2 and 16, total 18
    // capped: floor(2 * 16 / 18) = 1 -> 3, remaining 15
    // open: floor(16 * 15 / 18) = 13 -> 15, remaining 2
    // round-robin: capped 4, open 16 -> remaining 0
    assert_eq!(container.sizes(), vec![4, 16]);
}

#[test]
fn heavy_weight_can_overshoot_a_small_maximum() {
    // the proportional phase hands a seated child the floor of
    // share * remaining / total, with no cap at the child's maximum:
    // a bounded child alone takes the whole remainder
    let container = Container::builder_in(100)
        .with(Child::new("only").with_min(0).with_max(5))
        .build()
        .unwrap();
    assert_eq!(container.sizes(), vec![100]);
}

#[test]
fn enormous_weights_saturate_and_still_share_evenly() {
    let container = Container::builder_in(1000)
        .with(Child::new("a").with_min(0).with_max(usize::MAX).with_grow(u64::MAX))
        .with(Child::new("b").with_min(0).with_max(usize::MAX).with_grow(u64::MAX))
        .build()
        .unwrap();
    assert_eq!(container.sizes(), vec![500, 500]);
}

#[test]
fn whole_usize_budget_goes_to_an_open_child() {
    let container = Container::builder_in(usize::MAX)
        .with(Child::new("open").with_min(0))
        .build()
        .unwrap();
    assert_eq!(container.sizes(), vec![usize::MAX]);
}

#[test]
fn margin_alone_can_sink_a_required_child() {
    let result = Container::builder_in(10)
        .with_margin_between(5)
        .with(Child::new("a").with_min(3))
        .with(Child::new("b").with_min(3))
        .build();
    assert!(matches!(result, Err(Error::NotEnoughSpace)));
}
