use meshquisse::geometry::{cw, determinant};
use meshquisse::{triangulate, ImpossibleMergeInfo, LoadError, MergeInfo, MeshMerger, Point, UnionFind};

// 0         1
//  X-------X
//  |      /|
//  | 0   / |
//  |    /  |
//  |   /   |
//  |  /    |
//  | /   1 |
//  |/      |
//  X-------X
// 3         2
const QUAD: &str = "mesh
2
4 2
0 0 2 -1 0
3 0 3 -1 0 1
3 3 2 -1 1
0 3 3 -1 1 0
3 0 1 3 -1 -1 1
3 1 2 3 0 -1 -1
";

// The quad with a third triangle under edge 3 -> 2, down to vertex 4.
const QUAD_PLUS_ONE: &str = "mesh
2
5 3
0 0 2 -1 0
3 0 3 -1 0 1
3 3 3 -1 1 2
0 3 4 -1 2 1 0
0 6 2 -1 2
3 0 1 3 -1 -1 1
3 1 2 3 0 -1 2
3 3 2 4 -1 1 -1
";

/// One square unit of area, doubled, in determinant units.
const UNIT: i128 = 100_000_000;

fn load(text: &str) -> MeshMerger {
    MeshMerger::from_bytes(text.as_bytes()).unwrap()
}

fn live_area(m: &MeshMerger) -> i128 {
    m.mesh_polygons.iter().map(|p| p.area).sum()
}

#[test]
fn can_merge_4() {
    let mesh_merger = load(QUAD);
    assert_eq!(mesh_merger.can_merge(0, 0), Err(ImpossibleMergeInfo::NoNeighbour));
    assert_eq!(
        mesh_merger.can_merge(0, 1),
        Ok(MergeInfo { polygon_to: 0, to_index: 1, polygon_from: 1, from_index: 0 })
    );
    assert_eq!(mesh_merger.can_merge(0, 0), Err(ImpossibleMergeInfo::NoNeighbour));
    assert_eq!(mesh_merger.can_merge(1, 1), Err(ImpossibleMergeInfo::NoNeighbour));
    assert_eq!(
        mesh_merger.can_merge(1, 2),
        Ok(MergeInfo { polygon_to: 1, to_index: 2, polygon_from: 0, from_index: 2 })
    );
}

#[test]
fn manual_merge_4() {
    let mut mesh_merger = load(QUAD);
    mesh_merger.merge(&MergeInfo { polygon_to: 0, to_index: 1, polygon_from: 1, from_index: 0 });
    assert_eq!(mesh_merger.mesh_polygons[0].vertices, vec![3, 0, 1, 2]);
    assert_eq!(mesh_merger.mesh_polygons[0].polygons, vec![-1, -1, -1, -1]);
    assert!(mesh_merger.mesh_polygons[1].vertices.is_empty());
    let mut mesh_merger = load(QUAD);
    mesh_merger.merge(&MergeInfo { polygon_to: 1, to_index: 2, polygon_from: 0, from_index: 2 });
    assert_eq!(mesh_merger.mesh_polygons[1].vertices, vec![1, 2, 3, 0]);
    assert!(mesh_merger.mesh_polygons[0].vertices.is_empty());
}

#[test]
fn merge_quad() {
    let mut mesh_merger = load(QUAD);
    assert_eq!(mesh_merger.my_merge(), Ok(1));
    let p = &mesh_merger.mesh_polygons[0];
    assert_eq!(p.vertices, vec![3, 0, 1, 2]);
    assert_eq!(p.polygons, vec![-1, -1, -1, -1]);
    assert_eq!(p.num_traversable, 0);
    assert_eq!(p.area, 18 * UNIT);
}

#[test]
fn merge_bigger_quad() {
    let mut mesh_merger = load(QUAD_PLUS_ONE);
    assert_eq!(mesh_merger.my_merge(), Ok(2));
    let p = &mesh_merger.mesh_polygons[2];
    assert_eq!(p.vertices, vec![2, 4, 3, 0, 1]);
    assert_eq!(p.polygons, vec![-1, -1, -1, -1, -1]);
    assert_eq!(p.num_traversable, 0);
    assert_eq!(p.area, 27 * UNIT);
}

#[test]
fn manual_merge_5() {
    let mut mesh_merger = load(QUAD_PLUS_ONE);
    mesh_merger.merge(&MergeInfo { polygon_to: 0, to_index: 1, polygon_from: 1, from_index: 0 });
    for polygon_to_index in 0..mesh_merger.mesh_polygons.len() {
        let n = mesh_merger.mesh_polygons[polygon_to_index].vertices.len();
        for merge_index in 0..n {
            let r = mesh_merger.can_merge(polygon_to_index as i32, merge_index);
            if (polygon_to_index == 0 && merge_index == 3) || (polygon_to_index == 2 && merge_index == 0) {
                assert!(r.is_ok());
            } else {
                assert!(r.is_err());
            }
        }
    }
    assert_eq!(
        mesh_merger.can_merge(2, 0),
        Ok(MergeInfo { polygon_to: 2, to_index: 0, polygon_from: 0, from_index: 0 })
    );
    assert_eq!(mesh_merger.can_merge(1, 0), Err(ImpossibleMergeInfo::ToMergedIntoOther));
    mesh_merger.merge(&MergeInfo { polygon_to: 2, to_index: 0, polygon_from: 0, from_index: 0 });
    assert_eq!(mesh_merger.mesh_polygons[2].vertices, vec![2, 4, 3, 0, 1]);
}

#[test]
fn merge_adds_areas() {
    let mut m = load(QUAD_PLUS_ONE);
    let a = m.mesh_polygons[0].area;
    let b = m.mesh_polygons[1].area;
    let total = live_area(&m);
    m.merge(&MergeInfo { polygon_to: 0, to_index: 1, polygon_from: 1, from_index: 0 });
    assert_eq!(m.mesh_polygons[0].area, a + b);
    assert_eq!(m.mesh_polygons[1].area, 0);
    assert_eq!(live_area(&m), total);
    assert_eq!(
        MeshMerger::get_area(&m.mesh_vertices, &m.mesh_polygons[0].vertices),
        a + b
    );
}

#[test]
fn concave_union_is_refused() {
    // Two triangles whose union would be a dart: vertex 3 lies inside the
    // hull of the others.
    let text = "mesh
2
4 2
0 0 2 -1 0
4 0 2 -1 0
2 1 2 0 1
2 4 2 -1 1
3 0 1 2 -1 -1 1
3 2 1 3 -1 0 -1
";
    let m = load(text);
    assert_eq!(m.can_merge(0, 1), Err(ImpossibleMergeInfo::SecondVertexClockwise));
    assert_eq!(m.can_merge(1, 0), Err(ImpossibleMergeInfo::FirstVertexClockwise));
}

#[test]
fn one_sided_adjacency_is_corrupt() {
    // Polygon 0 lists polygon 1 across its diagonal; polygon 1 lists nothing.
    let text = "mesh
2
4 2
0 0 2 -1 0
3 0 3 -1 0 1
3 3 2 -1 1
0 3 3 -1 1 0
3 0 1 3 -1 -1 1
3 1 2 3 -1 -1 -1
";
    let mut m = load(text);
    assert_eq!(m.can_merge(0, 1), Err(ImpossibleMergeInfo::Corrupt));
    assert_eq!(m.my_merge(), Err(ImpossibleMergeInfo::Corrupt));
}

#[test]
fn fixed_point_after_merge() {
    let mut m = load(QUAD_PLUS_ONE);
    m.my_merge().unwrap();
    for a in 0..m.mesh_polygons.len() {
        for i in 0..m.mesh_polygons[a].vertices.len() {
            assert!(m.can_merge(a as i32, i).is_err());
        }
    }
}

#[test]
fn degenerate_clockwise_triangle() {
    let text = "mesh
2
3 1
0 0 2 -1 0
0 3 2 -1 0
3 0 2 -1 0
3 0 1 2 -1 -1 -1
";
    assert_eq!(MeshMerger::from_bytes(text.as_bytes()).err().map(|f| f.kind), Some(LoadError::DegeneratePolygon));
}

#[test]
fn load_errors() {
    let bad_header = "mesh\n3\n0 0\n";
    assert_eq!(MeshMerger::from_bytes(bad_header.as_bytes()).err().map(|f| f.kind), Some(LoadError::InvalidHeader));
    let bad_counts = "mesh\n2\n4 x\n";
    assert_eq!(MeshMerger::from_bytes(bad_counts.as_bytes()).err().map(|f| f.kind), Some(LoadError::BadCounts));
    let few = "mesh\n2\n1 1\n0 0 1 0\n";
    assert_eq!(MeshMerger::from_bytes(few.as_bytes()).err().map(|f| f.kind), Some(LoadError::TooFewNeighbors));
    let range = "mesh\n2\n1 1\n0 0 2 0 5\n";
    assert_eq!(MeshMerger::from_bytes(range.as_bytes()).err().map(|f| f.kind), Some(LoadError::OutOfRange));
    let header_two = MeshMerger::from_bytes("mesh\n3\n0 0\n".as_bytes()).err().unwrap();
    assert_eq!(header_two.line, 1);
    let missing = "mesh\n2\n1 1\n";
    assert_eq!(MeshMerger::from_bytes(missing.as_bytes()).err().unwrap().line, 3);
    assert_eq!(MeshMerger::from_bytes(missing.as_bytes()).err().map(|f| f.kind), Some(LoadError::Malformed));
    let long_fraction = "mesh\n2\n1 1\n0.12345 0 2 -1 0\n";
    assert_eq!(MeshMerger::from_bytes(long_fraction.as_bytes()).err().map(|f| f.kind), Some(LoadError::Malformed));
    let vertex_range = "mesh\n2\n3 1\n0 0 2 -1 0\n1 0 2 -1 0\n0 1 2 -1 0\n3 0 1 7 -1 -1 -1\n";
    assert_eq!(MeshMerger::from_bytes(vertex_range.as_bytes()).err().map(|f| f.kind), Some(LoadError::OutOfRange));
    assert_eq!(MeshMerger::from_bytes(vertex_range.as_bytes()).err().unwrap().line, 6);
}

#[test]
fn load_rotates_neighbours() {
    let m = load(QUAD);
    assert_eq!(m.mesh_polygons[0].polygons, vec![-1, 1, -1]);
    assert_eq!(m.mesh_polygons[1].polygons, vec![-1, -1, 0]);
    assert_eq!(m.mesh_polygons[0].num_traversable, 1);
    assert_eq!(m.mesh_polygons[0].area, 9 * UNIT);
    assert_eq!(m.mesh_vertices[1].p, Point { x: 30000, y: 0 });
    assert_eq!(m.mesh_vertices[1].polygons, vec![-1, 0, 1]);
}

#[test]
fn decimal_coordinates() {
    let text = "mesh\n2\n3 1\n0 0 2 -1 0\n1.5 0 2 -1 0\n-0.25 2.0001 2 -1 0\n3 0 1 2 -1 -1 -1\n";
    let m = load(text);
    assert_eq!(m.mesh_vertices[1].p, Point { x: 15000, y: 0 });
    assert_eq!(m.mesh_vertices[2].p, Point { x: -2500, y: 20001 });
    let out = String::from_utf8(m.to_mesh2_format()).unwrap();
    assert_eq!(out, "mesh\n2\n3 1\n0 0 2 -1 0\n1.5 0 2 -1 0\n-0.25 2.0001 2 -1 0\n3 0 1 2 -1 -1 -1\n");
}

#[test]
fn round_trip_after_merge() {
    let mut m = load(QUAD_PLUS_ONE);
    let total = live_area(&m);
    m.my_merge().unwrap();
    m.compact();
    assert_eq!(m.mesh_polygons.len(), 1);
    assert_eq!(live_area(&m), total);
    assert_eq!(m.mesh_vertices[3].polygons, vec![-1, 0]);
    let text = m.to_mesh2_format();
    let again = MeshMerger::from_bytes(&text).unwrap();
    assert_eq!(again.mesh_polygons.len(), 1);
    assert_eq!(live_area(&again), total);
    assert_eq!(again.to_mesh2_format(), text);
}

#[test]
fn text_round_trip_of_compact_mesh() {
    let m = load(QUAD_PLUS_ONE);
    let text = m.to_mesh2_format();
    assert_eq!(String::from_utf8(text.clone()).unwrap(), QUAD_PLUS_ONE);
    let again = MeshMerger::from_bytes(&text).unwrap();
    for k in 0..3 {
        assert_eq!(again.mesh_polygons[k].vertices, m.mesh_polygons[k].vertices);
        assert_eq!(again.mesh_polygons[k].polygons, m.mesh_polygons[k].polygons);
    }
}

#[test]
fn compact_renumbers() {
    let mut m = load(QUAD_PLUS_ONE);
    m.merge(&MergeInfo { polygon_to: 0, to_index: 1, polygon_from: 1, from_index: 0 });
    m.compact();
    assert_eq!(m.mesh_polygons.len(), 2);
    assert_eq!(m.mesh_polygons[0].vertices, vec![3, 0, 1, 2]);
    assert_eq!(m.mesh_polygons[0].polygons, vec![-1, -1, -1, 1]);
    assert_eq!(m.mesh_polygons[1].polygons, vec![0, -1, -1]);
    assert_eq!(m.polygon_unions.find(1), 1);
    assert_eq!(m.mesh_vertices[2].polygons, vec![-1, 0, 1]);
    let before = m.to_mesh2_format();
    m.compact();
    assert_eq!(m.to_mesh2_format(), before);
}

#[test]
fn compact_drops_unused_vertices() {
    let text = "mesh\n2\n4 1\n0 0 2 -1 0\n9 9 2 -1 -1\n1 0 2 -1 0\n0 1 2 -1 0\n3 0 2 3 -1 -1 -1\n";
    let mut m = load(text);
    m.compact();
    assert_eq!(m.mesh_vertices.len(), 3);
    assert_eq!(m.mesh_polygons[0].vertices, vec![0, 1, 2]);
    assert_eq!(m.mesh_vertices[1].p, Point { x: 10000, y: 0 });
}

#[test]
fn triangulate_fans() {
    let mut m = load(QUAD_PLUS_ONE);
    m.my_merge().unwrap();
    m.compact();
    let t = triangulate(&m);
    let ring = &m.mesh_polygons[0].vertices;
    assert_eq!(t.indices.len(), 9);
    assert_eq!(t.indices[0..3], [ring[0], ring[1], ring[2]]);
    assert_eq!(t.indices[6..9], [ring[0], ring[3], ring[4]]);
    let area: i128 = t
        .indices
        .chunks(3)
        .map(|c| {
            let tri = vec![c[0], c[1], c[2]];
            MeshMerger::get_area(&m.mesh_vertices, &tri)
        })
        .sum();
    assert_eq!(area, 27 * UNIT);
    assert_eq!(t.positions.len(), 5);
}

#[test]
fn union_find_joins_whole_sets() {
    let mut u = UnionFind::new(3);
    u.merge(0, 1);
    u.merge(2, 1);
    assert_eq!(u.find(0), 2);
    assert_eq!(u.find(1), 2);
    u.merge(2, 2);
    assert_eq!(u.find(2), 2);
    u.merge(2, 0);
    assert_eq!(u.find(0), 2);
}

#[test]
fn union_find_basics() {
    let mut u = UnionFind::new(4);
    assert_eq!(u.find(-1), -1);
    assert_eq!(u.find(2), 2);
    u.merge(0, 2);
    u.merge(3, 0);
    assert_eq!(u.find(2), 3);
    assert_eq!(u.find(0), 3);
    assert_eq!(u.find(1), 1);
    assert_eq!(u.len(), 4);
}

#[test]
fn geometry_predicates() {
    let a = Point { x: 0, y: 0 };
    let b = Point { x: 10, y: 0 };
    let c = Point { x: 10, y: 10 };
    assert_eq!(determinant(&b, &c), 100);
    assert!(!cw(&a, &b, &c));
    assert!(cw(&c, &b, &a));
    assert!(!cw(&a, &b, &Point { x: 20, y: 0 }));
}

#[test]
fn circular_get() {
    let v = vec![4u32, 5, 6];
    assert_eq!(meshquisse::getc(&v, 1), 5);
    assert_eq!(meshquisse::getc(&v, 3), 4);
    assert_eq!(meshquisse::getc(&v, 8), 6);
}
