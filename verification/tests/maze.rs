use gridpath::graph::Graph;
use gridpath::graph::MalformedGridError;
use gridpath::point::Point;

fn grid(rows: &[&str]) -> Vec<Vec<char>> {
    rows.iter().map(|r| r.chars().collect()).collect()
}

fn assert_cardinal_adjacent(a: Point, b: Point) {
    let dx = (a.x - b.x).abs();
    let dy = (a.y - b.y).abs();
    assert_eq!(dx + dy, 1);
}

#[test]
fn test_graph() {
    let maze = grid(&["S..#", ".#.#", "...E"]);
    let graph = Graph::new(&maze);
    assert!(graph.is_ok());
}

#[test]
fn scenario_grid_cost_five() {
    let maze = grid(&["S..#", ".#.#", "...E"]);
    let mut graph = Graph::new(&maze).unwrap();
    let cost = graph.shortest_path();
    assert_eq!(cost, Some(5));
    let path = graph.show_path().unwrap();
    assert_eq!(path.len(), 6);
    assert_eq!(path[0], Point { x: 0, y: 0 });
    assert_eq!(path[5], Point { x: 3, y: 2 });
    for w in path.windows(2) {
        assert_cardinal_adjacent(w[0], w[1]);
    }
}

#[test]
fn scenario_adjacent_start_end() {
    let maze = grid(&["SE"]);
    let mut graph = Graph::new(&maze).unwrap();
    assert_eq!(graph.shortest_path(), Some(1));
    let path = graph.show_path().unwrap();
    assert_eq!(path, vec![Point { x: 0, y: 0 }, Point { x: 1, y: 0 }]);
}

#[test]
fn scenario_walled_off() {
    let maze = grid(&["S#E"]);
    let mut graph = Graph::new(&maze).unwrap();
    assert_eq!(graph.shortest_path(), None);
    assert!(graph.show_path().is_err());
}

#[test]
fn reconstruct_before_query_fails() {
    let maze = grid(&["SE"]);
    let mut graph = Graph::new(&maze).unwrap();
    assert!(graph.show_path().is_err());
}

#[test]
fn repeated_queries_agree() {
    let maze = grid(&["S..#", ".#.#", "...E"]);
    let mut graph = Graph::new(&maze).unwrap();
    let first_cost = graph.shortest_path();
    let first_path = graph.show_path().unwrap();
    let second_cost = graph.shortest_path();
    let second_path = graph.show_path().unwrap();
    assert_eq!(first_cost, second_cost);
    assert_eq!(first_path, second_path);
}

#[test]
fn parser_rejects_bad_grids() {
    let empty: Vec<Vec<char>> = Vec::new();
    assert_eq!(Graph::new(&empty).unwrap_err(), MalformedGridError::EmptyGrid);
    assert_eq!(
        Graph::new(&grid(&["..E"])).unwrap_err(),
        MalformedGridError::MissingStart
    );
    assert_eq!(
        Graph::new(&grid(&["SS", ".E"])).unwrap_err(),
        MalformedGridError::MultipleStart
    );
    assert_eq!(
        Graph::new(&grid(&["S.."])).unwrap_err(),
        MalformedGridError::MissingEnd
    );
    assert_eq!(
        Graph::new(&grid(&["SE", ".E"])).unwrap_err(),
        MalformedGridError::MultipleEnd
    );
}

#[test]
fn walls_and_bounds_exposed() {
    let maze = grid(&["S#", ".E"]);
    let graph = Graph::new(&maze).unwrap();
    assert_eq!(graph.wall_points(), &vec![Point { x: 1, y: 0 }]);
    assert_eq!(graph.bounds(), (2, 2));
    assert_eq!(graph.start_point(), Point { x: 0, y: 0 });
    assert_eq!(graph.end_point(), Point { x: 1, y: 1 });
}

#[test]
fn ragged_rows_use_longest() {
    let maze = grid(&["S.", "...E"]);
    let mut graph = Graph::new(&maze).unwrap();
    assert_eq!(graph.bounds(), (4, 2));
    assert_eq!(graph.shortest_path(), Some(4));
}
