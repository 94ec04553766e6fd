//! Builds the London transit example graph (a game-style map of 200
//! stations joined by taxi, bus, underground and ferry lines) and the
//! path-query tests that run on it.

#![allow(dead_code)]

use propgraph::{
    AStarSearch, AdmissibleHeuristic, BreadthFirstSearch, DepthFirstSearch,
    EmbeddedPropertyGraph, Graph, NodeAddress, PathCost,
};

#[derive(Debug)]
pub struct Station {
    /// The station ID
    id: usize,
    /// The X coordinate of the station on the map, in 0..=768
    x: usize,
    /// The Y coordinate of the station on the map, in 0..=512
    y: usize,
}

#[derive(Debug, Copy, Clone, Eq, PartialEq)]
pub enum ConnectionType {
    /// A subway line.
    Underground,
    /// A bus line
    Bus,
    /// A boat line.
    Ferry,
    /// A taxi line.
    Taxi,
}

/// `(id, x, y)` of every station; the node at row `i` is station `i + 1`.
const STATIONS: &[(usize, usize, usize)] = &[
    (1, 110, 30), (2, 250, 35), (3, 302, 27), (4, 375, 30), (5, 585, 33),
    (6, 630, 35), (7, 702, 37), (8, 72, 58), (9, 127, 60), (10, 262, 70),
    (11, 302, 62), (12, 340, 65), (13, 405, 67), (14, 467, 47), (15, 525, 35),
    (16, 596, 67), (17, 700, 85), (18, 32, 90), (19, 100, 87), (20, 157, 85),
    (21, 219, 110), (22, 307, 105), (23, 352, 92), (24, 426, 95), (25, 475, 80),
    (26, 512, 70), (27, 525, 95), (28, 560, 85), (29, 640, 105), (30, 725, 115),
    (31, 65, 122), (32, 137, 125), (33, 185, 120), (34, 279, 120), (35, 320, 140),
    (36, 350, 145), (37, 385, 125), (38, 424, 122), (39, 490, 107), (40, 540, 127),
    (41, 585, 117), (42, 687, 130), (43, 34, 135), (44, 92, 145), (45, 160, 155),
    (46, 210, 150), (47, 245, 132), (48, 285, 157), (49, 365, 167), (50, 395, 150),
    (51, 465, 150), (52, 597, 135), (53, 550, 165), (54, 575, 150), (55, 630, 145),
    (56, 720, 172), (57, 47, 167), (58, 112, 167), (59, 150, 200), (60, 185, 185),
    (61, 220, 192), (62, 255, 172), (63, 295, 210), (64, 327, 210), (65, 355, 192),
    (66, 387, 195), (67, 420, 177), (68, 477, 175), (69, 520, 185), (70, 577, 180),
    (71, 622, 175), (72, 675, 177), (73, 55, 195), (74, 80, 215), (75, 120, 220),
    (76, 175, 217), (77, 192, 240), (78, 225, 227), (79, 260, 215), (80, 327, 247),
    (81, 360, 247), (82, 385, 230), (83, 420, 240), (84, 460, 202), (85, 495, 205),
    (86, 532, 217), (87, 575, 235), (88, 602, 255), (89, 610, 215), (90, 660, 200),
    (91, 705, 207), (92, 42, 230), (93, 45, 265), (94, 82, 265), (95, 137, 252),
    (96, 215, 275), (97, 245, 265), (98, 275, 255), (99, 302, 265), (100, 352, 280),
    (101, 387, 265), (102, 455, 237), (103, 500, 225), (104, 545, 260), (105, 645, 245),
    (106, 685, 240), (107, 725, 240), (108, 642, 310), (109, 250, 305), (110, 280, 380),
    (111, 290, 310), (112, 320, 292), (113, 360, 305), (114, 395, 305), (115, 460, 280),
    (116, 545, 310), (117, 597, 315), (118, 555, 345), (119, 712, 330), (120, 27, 355),
    (121, 65, 355), (122, 100, 250), (123, 185, 350), (124, 242, 335), (125, 330, 315),
    (126, 430, 315), (127, 492, 330), (128, 582, 442), (129, 597, 350), (130, 310, 345),
    (131, 350, 335), (132, 390, 330), (133, 465, 370), (134, 515, 360), (135, 635, 375),
    (136, 680, 390), (137, 160, 372), (138, 255, 360), (139, 320, 367), (140, 385, 365),
    (141, 487, 395), (142, 555, 405), (143, 610, 410), (144, 40, 400), (145, 75, 397),
    (146, 107, 392), (147, 140, 395), (148, 170, 412), (149, 200, 395), (150, 225, 375),
    (151, 250, 397), (152, 275, 375), (153, 295, 405), (154, 345, 390), (155, 367, 410),
    (156, 395, 420), (157, 450, 432), (158, 500, 420), (159, 510, 470), (160, 625, 445),
    (161, 670, 425), (162, 725, 420), (163, 110, 422), (164, 150, 435), (165, 210, 435),
    (166, 290, 435), (167, 330, 440), (168, 357, 460), (169, 390, 450), (170, 452, 470),
    (171, 650, 515), (172, 557, 467), (173, 637, 480), (174, 680, 455), (175, 710, 485),
    (176, 40, 457), (177, 75, 445), (178, 125, 462), (179, 180, 460), (180, 232, 482),
    (181, 275, 467), (182, 295, 490), (183, 315, 462), (184, 390, 480), (185, 445, 520),
    (186, 285, 502), (187, 542, 517), (188, 600, 500), (189, 75, 502), (190, 120, 525),
    (191, 145, 500), (192, 190, 547), (193, 260, 510), (194, 275, 535), (195, 315, 530),
    (196, 340, 487), (197, 352, 515), (198, 515, 545), (199, 600, 530), (200, 600, 600),
];

/// `(from, to...)` station IDs joined bidirectionally by taxi lines.
const TAXI_LINKS: &[(usize, &[usize])] = &[
    (1, &[8, 9]),
    (2, &[10, 20]),
    (3, &[4, 11, 12]),
    (4, &[13]),
    (6, &[7, 29]),
    (7, &[17]),
    (8, &[18, 19]),
    (9, &[19, 20]),
    (10, &[11, 21, 34]),
    (11, &[22]),
    (12, &[23]),
    (13, &[14, 23, 24]),
    (14, &[15, 25]),
    (15, &[16, 26, 28]),
    (17, &[29, 30, 42]),
    (18, &[31, 43]),
    (19, &[32]),
    (20, &[33]),
    (21, &[33]),
    (22, &[23, 34, 35]),
    (23, &[37]),
    (24, &[37, 38]),
    (25, &[38, 39]),
    (26, &[27, 39]),
    (27, &[28, 40]),
    (28, &[41]),
    (29, &[41, 42]),
    (30, &[42]),
    (31, &[43, 44]),
    (32, &[33, 44, 45]),
    (33, &[46]),
    (34, &[47, 48]),
    (35, &[36, 48, 65]),
    (36, &[37, 49]),
    (37, &[50]),
    (38, &[50, 51]),
    (39, &[51, 52]),
    (40, &[41, 53]),
    (41, &[54]),
    (42, &[56, 72]),
    (43, &[57]),
    (44, &[58]),
    (45, &[46, 58, 59, 60]),
    (46, &[47, 61]),
    (47, &[62]),
    (48, &[62, 63]),
    (49, &[50, 66]),
    (50, &[67]),
    (51, &[52, 67, 68]),
    (52, &[69]),
    (53, &[54, 69]),
    (54, &[55, 70]),
    (55, &[71]),
    (56, &[91]),
    (57, &[58, 73]),
    (58, &[59, 74, 75]),
    (59, &[75, 76]),
    (60, &[61, 76]),
    (61, &[62, 76, 78]),
    (62, &[79]),
    (63, &[64, 79, 80]),
    (64, &[65, 81]),
    (65, &[66, 82]),
    (66, &[67, 82]),
    (67, &[68, 84]),
    (68, &[69, 85]),
    (69, &[86]),
    (70, &[71, 87]),
    (71, &[72, 89]),
    (72, &[90, 91]),
    (73, &[74, 92]),
    (74, &[92]),
    (75, &[94]),
    (76, &[77]),
    (77, &[78, 95, 96]),
    (78, &[79, 97]),
    (79, &[98]),
    (80, &[99, 100]),
    (81, &[82, 100]),
    (82, &[101]),
    (83, &[101, 102]),
    (84, &[85]),
    (85, &[103]),
    (86, &[103, 104]),
    (87, &[88]),
    (88, &[117]),
    (89, &[105]),
    (90, &[91, 105]),
    (91, &[105, 107]),
    (92, &[93]),
    (93, &[94]),
    (94, &[95]),
    (95, &[122]),
    (96, &[97, 109]),
    (97, &[98, 109]),
    (98, &[99, 110]),
    (99, &[110, 112]),
    (100, &[101, 112, 113]),
    (101, &[114]),
    (102, &[103, 115]),
    (104, &[116]),
    (105, &[106, 108]),
    (106, &[107]),
    (107, &[119]),
    (108, &[117, 119, 135]),
    (109, &[110, 124]),
    (110, &[111]),
    (111, &[112, 124]),
    (112, &[125]),
    (113, &[114, 125]),
    (114, &[115, 126, 131, 132]),
    (115, &[126, 127]),
    (116, &[117, 118, 127]),
    (117, &[129]),
    (118, &[129, 134, 142]),
    (119, &[136]),
    (120, &[121, 144]),
    (121, &[122, 145]),
    (122, &[123, 146]),
    (123, &[124, 137, 148, 149]),
    (124, &[130, 138]),
    (125, &[131]),
    (126, &[127, 140]),
    (127, &[133, 134]),
    (129, &[135, 142, 143]),
    (130, &[131, 139]),
    (132, &[140]),
    (133, &[140, 141]),
    (134, &[141, 142]),
    (135, &[136, 143, 161]),
    (136, &[162]),
    (137, &[147]),
    (138, &[150, 152]),
    (139, &[140, 153, 154]),
    (140, &[154, 156]),
    (141, &[142, 158]),
    (142, &[143, 158]),
    (143, &[160]),
    (144, &[145, 177]),
    (145, &[146]),
    (146, &[163, 147]),
    (147, &[164]),
    (148, &[149, 164]),
    (149, &[150, 165]),
    (150, &[151]),
    (151, &[152, 165, 166]),
    (152, &[153]),
    (153, &[154, 166, 167]),
    (154, &[155]),
    (155, &[156, 167, 168]),
    (156, &[157, 169]),
    (157, &[158, 170]),
    (158, &[159]),
    (159, &[170, 172, 186, 198]),
    (160, &[161, 173]),
    (161, &[174]),
    (162, &[175]),
    (163, &[177, 178]),
    (164, &[178, 179]),
    (165, &[179, 180]),
    (166, &[181, 183]),
    (167, &[168, 183]),
    (169, &[184]),
    (170, &[185]),
    (171, &[173, 175, 199]),
    (172, &[187]),
    (173, &[174, 188]),
    (174, &[175]),
    (176, &[177, 189]),
    (178, &[189, 191]),
    (179, &[191]),
    (180, &[181, 192, 193]),
    (181, &[182, 193]),
    (182, &[195]),
    (183, &[196]),
    (184, &[185, 197]),
    (185, &[186, 198]),
    (186, &[198]),
    (187, &[188, 198]),
    (188, &[199]),
    (189, &[190]),
    (190, &[191, 192]),
    (191, &[192]),
    (192, &[194]),
    (193, &[194]),
    (194, &[195]),
    (195, &[197]),
    (196, &[197]),
    (198, &[199]),
];

/// `(from, to...)` station IDs joined bidirectionally by bus lines.
const BUS_LINKS: &[(usize, &[usize])] = &[
    (1, &[46, 58]),
    (3, &[22, 23]),
    (7, &[42]),
    (13, &[14, 23, 52]),
    (14, &[15]),
    (15, &[29, 41]),
    (22, &[23, 34, 56]),
    (23, &[67]),
    (29, &[41, 42, 55]),
    (34, &[46, 63]),
    (41, &[52, 87]),
    (42, &[72]),
    (46, &[58, 78]),
    (52, &[67, 86]),
    (55, &[89]),
    (63, &[65, 79, 100]),
    (65, &[67, 82]),
    (67, &[82, 102]),
    (72, &[105, 107]),
    (77, &[78, 124]),
    (78, &[79]),
    (82, &[100, 140]),
    (86, &[87, 102, 116]),
    (87, &[105]),
    (89, &[105]),
    (100, &[111]),
    (102, &[127]),
    (105, &[107, 108]),
    (107, &[161]),
    (108, &[116, 135]),
    (116, &[127, 142]),
    (122, &[123, 144]),
    (123, &[124, 165, 144]),
    (124, &[153]),
    (127, &[133]),
    (128, &[135, 142, 161, 187, 199]),
    (133, &[140]),
    (142, &[157]),
    (144, &[163]),
    (153, &[154, 180, 184]),
    (154, &[156]),
    (156, &[157, 184]),
    (157, &[185]),
    (161, &[199]),
    (163, &[176, 191]),
    (165, &[180, 191]),
    (176, &[190]),
    (180, &[184, 190]),
    (184, &[185]),
    (185, &[187]),
    (190, &[191]),
];

/// `(from, to...)` station IDs joined bidirectionally by underground lines.
const UNDERGROUND_LINKS: &[(usize, &[usize])] = &[
    (1, &[46]),
    (13, &[46, 67, 89]),
    (46, &[74, 79]),
    (67, &[79, 89, 111]),
    (79, &[93, 111]),
    (89, &[128, 140]),
    (111, &[153, 163]),
    (128, &[140, 185]),
    (140, &[153]),
    (153, &[185]),
];

/// `(from, to...)` station IDs joined bidirectionally by ferry lines.
const FERRY_LINKS: &[(usize, &[usize])] = &[
    (108, &[115]),
    (115, &[157]),
    (157, &[194]),
];

fn station(row: usize) -> Station {
    let (id, x, y) = STATIONS[row];
    Station { id, x, y }
}

/// The London map as a [`Graph`].
pub fn london_graph() -> Graph<Station, ConnectionType> {
    let mut graph = Graph::default();
    let mut stations: Vec<NodeAddress> = Vec::new();
    for row in 0..STATIONS.len() {
        stations.push(graph.add(station(row)));
    }
    for &(links, kind) in &[
        (TAXI_LINKS, ConnectionType::Taxi),
        (BUS_LINKS, ConnectionType::Bus),
        (UNDERGROUND_LINKS, ConnectionType::Underground),
        (FERRY_LINKS, ConnectionType::Ferry),
    ] {
        for &(from, tos) in links {
            for &to in tos {
                graph.link_bidir(&stations[to - 1], &stations[from - 1], kind);
            }
        }
    }
    graph
}

/// The London map as an [`EmbeddedPropertyGraph`].
pub fn london_graph_embedded() -> EmbeddedPropertyGraph<Station, ConnectionType> {
    let mut graph = EmbeddedPropertyGraph::default();
    let mut stations: Vec<NodeAddress> = Vec::new();
    for row in 0..STATIONS.len() {
        stations.push(graph.add(station(row)));
    }
    for &(links, kind) in &[
        (TAXI_LINKS, ConnectionType::Taxi),
        (BUS_LINKS, ConnectionType::Bus),
        (UNDERGROUND_LINKS, ConnectionType::Underground),
        (FERRY_LINKS, ConnectionType::Ferry),
    ] {
        for &(from, tos) in links {
            for &to in tos {
                graph.link_bidir(&stations[to - 1], &stations[from - 1], kind);
            }
        }
    }
    graph
}

/// Heuristic for the London graph: squared straight-line distance.
#[derive(Default, Copy, Clone)]
pub struct LondonGraphLocationHeuristic;

impl AdmissibleHeuristic<Station> for LondonGraphLocationHeuristic {
    fn heuristic(&self, from: &Station, to: &Station) -> u64 {
        let x = from.x as i64 - to.x as i64;
        let y = from.y as i64 - to.y as i64;
        (x * x + y * y) as u64
    }
}

/// Heuristic for the London graph: straight-line distance in map units.
///
/// Stations are never more than a few hundred map units apart, so with
/// [`LondonGraphStationsCost`] pricing each hop at a thousand cost units
/// this estimate never exceeds the true remaining cost.
#[derive(Default, Copy, Clone)]
pub struct LondonGraphDistanceHeuristic;

impl AdmissibleHeuristic<Station> for LondonGraphDistanceHeuristic {
    fn heuristic(&self, from: &Station, to: &Station) -> u64 {
        let x = from.x as f64 - to.x as f64;
        let y = from.y as f64 - to.y as f64;
        (x * x + y * y).sqrt().round() as u64
    }
}

/// Edge cost for the London graph: every hop costs one station, priced at
/// a thousand cost units so that [`LondonGraphDistanceHeuristic`] stays
/// admissible against it.
#[derive(Default, Copy, Clone)]
pub struct LondonGraphStationsCost;

impl PathCost<Station, ConnectionType> for LondonGraphStationsCost {
    fn path_cost(&self, _from: &Station, _to: &Station, _relation: &ConnectionType) -> u64 {
        1000
    }
}

/// Edge cost treating every hop as one unit, as the plain location-driven
/// A* query does.
#[derive(Default, Copy, Clone)]
pub struct UnitCost;

impl PathCost<Station, ConnectionType> for UnitCost {
    fn path_cost(&self, _from: &Station, _to: &Station, _relation: &ConnectionType) -> u64 {
        1
    }
}

#[test]
fn lib_london_examples() {
    let graph = london_graph();
    println!("{:?}", graph);
}

#[test]
fn examples_london_examples() {
    let graph = london_graph();
    println!("{:?}", graph);
}

#[test]
fn embedded_property_graph_london_examples() {
    let graph = london_graph();
    println!("{:?}", graph);
}

#[test]
fn property_graph_london_examples() {
    let graph = london_graph();
    println!("{:?}", graph);
}

#[test]
fn bfs_it_works() {
    let solver = BreadthFirstSearch::default();
    let graph = london_graph_embedded();
    let path = solver.shortest_path(
        &graph,
        NodeAddress::from_local(0),
        NodeAddress::from_local(198),
    );

    assert_eq!(path.len(), 6);
    assert_eq!(path[0].address, NodeAddress::Local(0));

    assert_eq!(path[1].address, NodeAddress::Local(45));
    assert_eq!(path[1].relation, Some(ConnectionType::Bus));

    assert_eq!(path[2].address, NodeAddress::Local(12));
    assert_eq!(path[2].relation, Some(ConnectionType::Underground));

    assert_eq!(path[3].address, NodeAddress::Local(88));
    assert_eq!(path[3].relation, Some(ConnectionType::Underground));

    assert_eq!(path[4].address, NodeAddress::Local(127));
    assert_eq!(path[4].relation, Some(ConnectionType::Underground));

    assert_eq!(path[5].address, NodeAddress::Local(198));
    assert_eq!(path[5].relation, Some(ConnectionType::Bus));
}

#[test]
fn bfs_unreachable() {
    let solver = BreadthFirstSearch::default();
    let graph = london_graph_embedded();
    let path = solver.shortest_path(
        &graph,
        NodeAddress::from_local(0),
        NodeAddress::from_local(199),
    );

    assert_eq!(path.len(), 0);
}

#[test]
fn dfs_it_works() {
    let solver = DepthFirstSearch::default();
    let graph = london_graph();
    let path = solver.find_path(
        &graph,
        NodeAddress::from_local(0),
        NodeAddress::from_local(198),
    );

    assert_eq!(path.len(), 45);
}

#[test]
fn dfs_unreachable() {
    let solver = DepthFirstSearch::default();
    let graph = london_graph();
    let path = solver.find_path(
        &graph,
        NodeAddress::from_local(0),
        NodeAddress::from_local(199),
    );

    assert_eq!(path.len(), 0);
}

#[test]
fn astar_it_works() {
    let solver = AStarSearch::default();
    let graph = london_graph_embedded();
    let heuristic = LondonGraphLocationHeuristic::default();
    let path_cost = UnitCost::default();
    let path = solver.shortest_path(
        &graph,
        NodeAddress::from_local(0),
        NodeAddress::from_local(198),
        &path_cost,
        &heuristic,
    );

    assert_eq!(path.len(), 9);
    assert_eq!(path[0].address, NodeAddress::Local(0));

    assert_eq!(path[1].address, NodeAddress::Local(45));
    assert_eq!(path[1].relation, Some(ConnectionType::Bus));

    assert_eq!(path[2].address, NodeAddress::Local(78));
    assert_eq!(path[2].relation, Some(ConnectionType::Underground));

    assert_eq!(path[3].address, NodeAddress::Local(110));
    assert_eq!(path[3].relation, Some(ConnectionType::Underground));

    assert_eq!(path[4].address, NodeAddress::Local(152));
    assert_eq!(path[4].relation, Some(ConnectionType::Underground));

    assert_eq!(path[5].address, NodeAddress::Local(184));
    assert_eq!(path[5].relation, Some(ConnectionType::Underground));

    assert_eq!(path[6].address, NodeAddress::Local(186));
    assert_eq!(path[6].relation, Some(ConnectionType::Bus));

    assert_eq!(path[7].address, NodeAddress::Local(187));
    assert_eq!(path[7].relation, Some(ConnectionType::Taxi));

    assert_eq!(path[8].address, NodeAddress::Local(198));
    assert_eq!(path[8].relation, Some(ConnectionType::Taxi));
}

#[test]
fn astar_unreachable() {
    let solver = AStarSearch::default();
    let graph = london_graph_embedded();
    let heuristic = LondonGraphLocationHeuristic::default();
    let path_cost = UnitCost::default();
    let path = solver.shortest_path(
        &graph,
        NodeAddress::from_local(0),
        NodeAddress::from_local(199),
        &path_cost,
        &heuristic,
    );

    assert_eq!(path.len(), 0);
}

#[test]
fn with_stations_cost() {
    let solver = AStarSearch::default();
    let graph = london_graph_embedded();
    let heuristic = LondonGraphDistanceHeuristic::default();
    let path_cost = LondonGraphStationsCost::default();
    let path = solver.shortest_path(
        &graph,
        NodeAddress::from_local(0),
        NodeAddress::from_local(198),
        &path_cost,
        &heuristic,
    );

    assert_eq!(path.len(), 6);
    assert_eq!(path[0].address, NodeAddress::Local(0));

    assert_eq!(path[1].address, NodeAddress::Local(45));
    assert_eq!(path[1].relation, Some(ConnectionType::Bus));

    assert_eq!(path[2].address, NodeAddress::Local(12));
    assert_eq!(path[2].relation, Some(ConnectionType::Underground));

    assert_eq!(path[3].address, NodeAddress::Local(88));
    assert_eq!(path[3].relation, Some(ConnectionType::Underground));

    assert_eq!(path[4].address, NodeAddress::Local(127));
    assert_eq!(path[4].relation, Some(ConnectionType::Underground));

    assert_eq!(path[5].address, NodeAddress::Local(198));
    assert_eq!(path[5].relation, Some(ConnectionType::Bus));
}

#[test]
fn ferries() {
    let solver = AStarSearch::default();
    let graph = london_graph_embedded();
    let heuristic = LondonGraphDistanceHeuristic::default();
    let path_cost = LondonGraphStationsCost::default();
    let path = solver.shortest_path(
        &graph,
        NodeAddress::from_local(191),
        NodeAddress::from_local(118),
        &path_cost,
        &heuristic,
    );

    assert_eq!(path.len(), 6);
    assert_eq!(path[0].address, NodeAddress::Local(191));

    assert_eq!(path[1].address, NodeAddress::Local(193));
    assert_eq!(path[1].relation, Some(ConnectionType::Taxi));

    assert_eq!(path[2].address, NodeAddress::Local(156));
    assert_eq!(path[2].relation, Some(ConnectionType::Ferry));

    assert_eq!(path[3].address, NodeAddress::Local(114));
    assert_eq!(path[3].relation, Some(ConnectionType::Ferry));

    assert_eq!(path[4].address, NodeAddress::Local(107));
    assert_eq!(path[4].relation, Some(ConnectionType::Ferry));

    assert_eq!(path[5].address, NodeAddress::Local(118));
    assert_eq!(path[5].relation, Some(ConnectionType::Taxi));
}

#[test]
fn astar_cost_at_most_bfs_and_dfs_cost() {
    // With every hop priced alike, the A* answer can cost no more than the
    // breadth-first answer, nor more than the depth-first one.
    let graph = london_graph_embedded();
    let plain_graph = london_graph();
    let start = NodeAddress::from_local(0);
    let target = NodeAddress::from_local(198);
    let astar_path = AStarSearch::default().shortest_path(
        &graph,
        start,
        target,
        &LondonGraphStationsCost::default(),
        &LondonGraphDistanceHeuristic::default(),
    );
    let bfs_path = BreadthFirstSearch::default().shortest_path(&graph, start, target);
    let dfs_path = DepthFirstSearch::default().find_path(&plain_graph, start, target);
    assert!(!astar_path.is_empty());
    // Each path's total cost is a thousand units per edge traversed.
    let astar_cost = (astar_path.len() - 1) * 1000;
    let bfs_cost = (bfs_path.len() - 1) * 1000;
    let dfs_cost = (dfs_path.len() - 1) * 1000;
    assert!(astar_cost <= bfs_cost);
    assert!(astar_cost <= dfs_cost);
}
