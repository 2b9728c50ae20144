use fog_of_war::shapes::{Cell, ItemDefinition, ItemShape, ItemType, Rotation, Shape};

fn c(x: i32, y: i32) -> Cell {
    Cell { x, y }
}

/// An L of three cells in a 2 by 2 box:
/// ```text
/// 1 0
/// 1 1
/// ```
fn l_shape() -> Shape {
    Shape::Grid { width: 2, height: 2, pattern: vec![vec![1, 0], vec![1, 1]] }
}

fn definition(rotate: bool) -> ItemDefinition {
    ItemDefinition {
        name: "Six Shooter".to_string(),
        item_type: ItemType::Equipment,
        description: "A revolver".to_string(),
        max_stack: 1,
        shape: Shape::Grid { width: 3, height: 1, pattern: vec![vec![1, 1, 1]] },
        rotate,
        icon: "icons/six_shooter.png".to_string(),
    }
}

#[test]
fn rotation_cycles_through_four_orientations() {
    assert_eq!(Rotation::Zero.next(), Rotation::Ninety);
    assert_eq!(Rotation::Ninety.next(), Rotation::OneEighty);
    assert_eq!(Rotation::OneEighty.next(), Rotation::TwoSeventy);
    assert_eq!(Rotation::TwoSeventy.next(), Rotation::Zero);
}

#[test]
fn shape_cells_unturned() {
    assert_eq!(l_shape().to_cells(&Rotation::Zero), vec![c(0, 0), c(0, 1), c(1, 1)]);
}

#[test]
fn shape_cells_turned_and_moved_to_origin() {
    // (x, y) -> (-y, x), then shifted so the smallest x and y are 0.
    assert_eq!(l_shape().to_cells(&Rotation::Ninety), vec![c(1, 0), c(0, 0), c(0, 1)]);
    assert_eq!(l_shape().to_cells(&Rotation::OneEighty), vec![c(1, 1), c(1, 0), c(0, 0)]);
    assert_eq!(l_shape().to_cells(&Rotation::TwoSeventy), vec![c(0, 1), c(1, 1), c(1, 0)]);
}

#[test]
fn only_ones_are_filled() {
    let s = Shape::Grid { width: 4, height: 1, pattern: vec![vec![1, 2, 0, 1]] };
    assert_eq!(s.to_cells(&Rotation::Zero), vec![c(0, 0), c(3, 0)]);
    let empty = Shape::Grid { width: 0, height: 0, pattern: vec![] };
    assert_eq!(empty.to_cells(&Rotation::Ninety), vec![]);
}

#[test]
fn fixed_items_have_no_turned_cells() {
    let d = definition(false);
    assert_eq!(d.get_cells(Rotation::Zero), vec![c(0, 0), c(1, 0), c(2, 0)]);
    assert_eq!(d.get_cells(Rotation::Ninety), vec![]);
    let t = definition(true);
    assert_eq!(t.get_cells(Rotation::Ninety), vec![c(0, 0), c(0, 1), c(0, 2)]);
    assert_eq!(t.get_cells(Rotation::OneEighty), vec![c(2, 0), c(1, 0), c(0, 0)]);
}

#[test]
fn item_shape_dimensions() {
    let s = ItemShape::new(vec![vec![1, 0, 0], vec![1, 1, 0]]);
    assert_eq!((s.width, s.height), (3, 2));
    let e = ItemShape::new(vec![]);
    assert_eq!((e.width, e.height), (0, 0));
}

#[test]
fn item_shape_occupancy() {
    let s = ItemShape::new(vec![vec![1, 0, 0], vec![1, 7, 0]]);
    assert!(s.occupied(0, 0));
    assert!(!s.occupied(1, 0));
    assert!(s.occupied(1, 1));
    assert!(!s.occupied(-1, 0));
    assert!(!s.occupied(3, 1));
    assert!(!s.occupied(0, 2));
}

#[test]
fn item_shape_quarter_turn() {
    let s = ItemShape::new(vec![vec![1, 0, 0], vec![1, 7, 0]]);
    let r = s.rotate();
    assert_eq!((r.width, r.height), (2, 3));
    assert_eq!(r.pattern, vec![vec![1, 1], vec![1, 0], vec![0, 0]]);
    let back = r.rotate().rotate().rotate();
    assert_eq!(back.pattern, vec![vec![1, 0, 0], vec![1, 1, 0]]);
}
