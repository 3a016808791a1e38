use rts_core::entities::Team;
use rts_core::game_core::ObstacleType;
use rts_core::grid::{CellRect, Grid};
use rts_core::pathfind::{find_path, Destination};

fn visualize_path(grid: &Grid<ObstacleType>, start: [u32; 2], path: &[[u32; 2]]) {
    let [w, h] = grid.dimensions();
    let mut border = String::from("+");
    for _ in 0..w {
        border.push('-');
    }
    border.push('+');
    println!("{}", border);
    for y in 0..h {
        let mut line = String::from("|");
        for x in 0..w {
            if grid.get(&[x, y]).unwrap() != ObstacleType::Free {
                line.push('#');
            } else if path.contains(&[x, y]) {
                line.push('.');
            } else if start == [x, y] {
                line.push('S');
            } else {
                line.push(' ');
            }
        }
        line.push('|');
        println!("{}", line);
    }
    println!("{}", border);
}

#[test]
fn trivial_straight_line_path() {
    let grid = Grid::new([10, 10]);
    let path = find_path([0, 0], Destination::Point([2, 0]), &grid);
    let expected = vec![[2, 0], [1, 0]];
    assert_eq!(path, Some(expected));
}

#[test]
fn diagonal_line_path() {
    let grid = Grid::new([10, 10]);
    let path = find_path([0, 0], Destination::Point([2, 2]), &grid);
    let expected = vec![[2, 2], [1, 1]];
    assert_eq!(path, Some(expected));
}

#[test]
fn path_going_around_obstacle() {
    let mut grid = Grid::new([10, 10]);
    grid.set([1, 0], ObstacleType::Entity(Team::Enemy1));
    let path = find_path([0, 0], Destination::Point([2, 0]), &grid);
    let expected = vec![[2, 0], [1, 1]];
    assert_eq!(path, Some(expected));
}

#[test]
fn impossible_path() {
    let mut grid = Grid::new([10, 2]);
    grid.set([2, 0], ObstacleType::Entity(Team::Enemy1));
    grid.set([2, 1], ObstacleType::Entity(Team::Enemy1));
    let path = find_path([0, 0], Destination::Point([4, 0]), &grid);
    assert_eq!(path, None);
}

#[test]
fn zigzag_path() {
    let mut grid = Grid::new([10, 4]);
    grid.set([2, 0], ObstacleType::Entity(Team::Enemy1));
    grid.set([2, 1], ObstacleType::Entity(Team::Enemy1));
    grid.set([2, 2], ObstacleType::Entity(Team::Enemy1));
    grid.set([4, 3], ObstacleType::Entity(Team::Enemy1));
    grid.set([4, 2], ObstacleType::Entity(Team::Enemy1));
    grid.set([4, 1], ObstacleType::Entity(Team::Enemy1));
    let start = [0, 0];
    let path = find_path(start, Destination::Point([6, 3]), &grid).unwrap();
    visualize_path(&grid, start, &path[..]);
    let expected = vec![
        [6, 3],
        [6, 2],
        [5, 1],
        [4, 0],
        [3, 1],
        [3, 2],
        [2, 3],
        [1, 2],
        [1, 1],
    ];
    assert_eq!(path, expected);
}

#[test]
fn to_structure_path() {
    let mut grid = Grid::new([10, 10]);
    let structure_cell_rect = CellRect {
        position: [7, 3],
        size: [3, 2],
    };
    grid.set([7, 3], ObstacleType::Entity(Team::Enemy1));
    grid.set([8, 3], ObstacleType::Entity(Team::Enemy1));
    grid.set([9, 3], ObstacleType::Entity(Team::Enemy1));
    grid.set([7, 4], ObstacleType::Entity(Team::Enemy1));
    grid.set([8, 4], ObstacleType::Entity(Team::Enemy1));
    grid.set([9, 4], ObstacleType::Entity(Team::Enemy1));

    let start = [4, 4];
    let path = find_path(
        start,
        Destination::AdjacentToEntity(structure_cell_rect),
        &grid,
    )
    .unwrap();
    visualize_path(&grid, start, &path[..]);
    let expected = vec![[6, 4], [5, 4]];
    assert_eq!(path, expected);
}

#[test]
fn far_destination_takes_the_straight_walk() {
    let grid = Grid::new([40, 40]);
    let path = find_path([0, 0], Destination::Point([12, 3]), &grid).unwrap();
    assert_eq!(path.len(), 12);
    assert_eq!(path[0], [12, 3]);
    assert_eq!(path[path.len() - 1], [1, 1]);
}

#[test]
fn path_to_own_cell_is_empty() {
    let grid = Grid::new([5, 5]);
    let path = find_path([2, 2], Destination::Point([2, 2]), &grid);
    assert_eq!(path, Some(vec![]));
}
