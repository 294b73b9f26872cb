use jello_space_pond::loop_crafting::{Direction, LoopCrafting, Recipe};
use jello_space_pond::rotate::{RotateClockwise, RotateCounterClockwise};

fn draw(crafting: &mut LoopCrafting, cells: &[[usize; 2]]) {
    for &cell in cells {
        crafting.track_index(cell);
    }
}

#[test]
fn direction_offsets() {
    assert_eq!(Direction::Right.offset(), [1, 0]);
    assert_eq!(Direction::Up.offset(), [0, 1]);
    assert_eq!(Direction::Left.offset(), [-1, 0]);
    assert_eq!(Direction::Down.offset(), [0, -1]);
    assert_eq!(Direction::Right.apply_offset([4, 2]), None);
    assert_eq!(Direction::Right.apply_offset([3, 2]), Some([4, 2]));
    assert_eq!(Direction::Up.apply_offset([1, 4]), None);
    assert_eq!(Direction::Left.apply_offset([0, 1]), None);
    assert_eq!(Direction::Down.apply_offset([2, 1]), Some([2, 0]));
    assert_eq!(Direction::Up.neg(), Direction::Down);
    assert_eq!(Direction::Right.rotate_counter_clockwise(), Direction::Up);
    assert_eq!(Direction::Right.rotate_clockwise(), Direction::Down);
    assert_eq!(Some(Direction::Down).rotate_counter_clockwise(), Some(Direction::Right));
    assert_eq!(None::<Direction>.rotate_clockwise(), None);
}

#[test]
fn returning_to_the_start_is_ignored() {
    let mut crafting = LoopCrafting::new();
    draw(&mut crafting, &[[1, 1], [2, 1], [2, 2], [1, 2]]);
    assert_eq!(crafting.cell([1, 1]), Some(Direction::Right));
    assert_eq!(crafting.cell([2, 1]), Some(Direction::Up));
    assert_eq!(crafting.cell([2, 2]), Some(Direction::Left));
    assert_eq!(crafting.end, Some([1, 2]));
    crafting.track_index([1, 1]);
    assert_eq!(crafting.end, Some([1, 2]));
    assert_eq!(crafting.cell([1, 2]), None);
    assert!(crafting.recipe.is_none());
}

#[test]
fn stepping_back_erases() {
    let mut crafting = LoopCrafting::new();
    draw(&mut crafting, &[[0, 0], [1, 0], [2, 0]]);
    assert_eq!(crafting.end, Some([2, 0]));
    crafting.track_index([1, 0]);
    assert_eq!(crafting.end, Some([1, 0]));
    assert_eq!(crafting.cell([1, 0]), None);
    assert_eq!(crafting.cell([0, 0]), Some(Direction::Right));
    crafting.track_index([3, 3]);
    assert_eq!(crafting.end, Some([1, 0]));
    crafting.track_index([7, 0]);
    assert_eq!(crafting.end, Some([1, 0]));
    crafting.clear();
    assert_eq!(crafting.start, None);
    assert_eq!(crafting.cell([0, 0]), None);
}

#[test]
fn recipes_match_when_moved_or_turned() {
    let mut first = LoopCrafting::new();
    draw(&mut first, &[[0, 0], [1, 0], [2, 0], [2, 1]]);
    let mut second = LoopCrafting::new();
    draw(&mut second, &[[1, 2], [2, 2], [3, 2], [3, 3]]);
    let a = Recipe::from(&first);
    let b = Recipe::from(&second);
    assert!(a.eq(&b));

    let turned = a.rotate_counter_clockwise();
    assert!(!turned.same_shape_as(&a));
    assert!(a.eq(&turned));
    assert!(turned.eq(&a));
    let back = turned.rotate_clockwise();
    assert!(back.same_shape_as(&a));
    assert!(a.eq(&back));

    let mut square = LoopCrafting::new();
    draw(&mut square, &[[0, 0], [1, 0], [1, 1], [0, 1]]);
    let c = Recipe::from(&square);
    assert!(!a.eq(&c));

    let mut mirrored = LoopCrafting::new();
    draw(&mut mirrored, &[[2, 0], [1, 0], [0, 0], [0, 1]]);
    assert!(!a.eq(&Recipe::from(&mirrored)));
}

#[test]
fn stored_recipe_is_copied() {
    let mut first = LoopCrafting::new();
    draw(&mut first, &[[0, 0], [0, 1], [1, 1]]);
    let made = Recipe::from(&first);
    let mut other = LoopCrafting::new();
    draw(&mut other, &[[4, 4], [3, 4]]);
    other.recipe = Some(made.rotate_clockwise());
    let copied = Recipe::from(&other);
    assert!(copied.eq(&made));
    assert!(!copied.same_shape_as(&made));
    other.track_index([2, 4]);
    assert_eq!(other.end, Some([3, 4]));
}
