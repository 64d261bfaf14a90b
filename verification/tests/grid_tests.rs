use puzzles::heightmap::parse_height_map;
use puzzles::heightmap::GridError;
use puzzles::heightmap::HeightMap;
use puzzles::heightmap::Node;
use puzzles::pathfinder::shortest_hike;
use puzzles::pathfinder::Pathfinder;

static SAMPLE: &str = "Sabqponm\nabcryxxl\naccszExk\nacctuvwj\nabdefghi";

#[test]
fn sample_shortest_path_has_length_31() {
    let map = parse_height_map(SAMPLE);
    let height_map = HeightMap::new(map).unwrap();
    let start = height_map.start;
    let mut pathfinder = Pathfinder { map: height_map, came_from: Vec::new(), start };
    let path = pathfinder.a_star().unwrap();
    // The path is a real walk from start to end.
    assert_eq!(path[0], pathfinder.map.start);
    assert_eq!(*path.last().unwrap(), pathfinder.map.end);
    // Edge count is node count minus one.
    assert_eq!(path.len() - 1, 31);
}

#[test]
fn sample_shortest_hike_has_length_29() {
    let map = parse_height_map(SAMPLE);
    let height_map = HeightMap::new(map).unwrap();
    assert_eq!(shortest_hike(height_map), Some(29));
}

#[test]
fn start_equals_end_gives_length_zero() {
    let map = parse_height_map(SAMPLE);
    let height_map = HeightMap::new(map).unwrap();
    let end = height_map.end;
    let mut pathfinder = Pathfinder { map: height_map, came_from: Vec::new(), start: end };
    let path = pathfinder.a_star().unwrap();
    assert_eq!(path.len() - 1, 0);
    assert_eq!(path, vec![end]);
}

#[test]
fn adjacency_is_not_symmetric() {
    // A 2x1 strip with elevations a and z: no edge a -> z (an ascent of
    // 25), but z -> a exists (descents are always allowed).
    let mut strip = HeightMap {
        arena: vec![Node::new(0, 0, 'a'), Node::new(1, 0, 'z')],
        start: 0,
        end: 1,
        row_length: 2,
    };
    strip.find_neighbors();
    assert_eq!(strip.arena[0].neighbors, Vec::<usize>::new());
    assert_eq!(strip.arena[1].neighbors, vec![0]);
}

#[test]
fn disconnected_grid_returns_no_path() {
    // The end cell is walled off by elevation jumps greater than one.
    let map = parse_height_map("Sz\nzE");
    let height_map = HeightMap::new(map).unwrap();
    let start = height_map.start;
    let mut pathfinder = Pathfinder { map: height_map, came_from: Vec::new(), start };
    assert_eq!(pathfinder.a_star(), None);
}

#[test]
fn ragged_input_is_malformed() {
    let map = parse_height_map("Sab\nabE\nxy");
    assert!(matches!(HeightMap::new(map), Err(GridError::MalformedInput)));
}

#[test]
fn duplicate_or_missing_markers_are_malformed() {
    assert!(matches!(HeightMap::new(parse_height_map("Sab\nSbE")), Err(GridError::MalformedInput)));
    assert!(matches!(HeightMap::new(parse_height_map("aab\nabb")), Err(GridError::MalformedInput)));
    assert!(matches!(HeightMap::new(parse_height_map("Sa!\nabE")), Err(GridError::MalformedInput)));
}

#[test]
fn straight_line_path() {
    let map = parse_height_map("SabcdefghijklmnopqrstuvwxyzE");
    let height_map = HeightMap::new(map).unwrap();
    let start = height_map.start;
    let mut pathfinder = Pathfinder { map: height_map, came_from: Vec::new(), start };
    let path = pathfinder.a_star().unwrap();
    assert_eq!(path.len() - 1, 27);
}
