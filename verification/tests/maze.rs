use mazegen::maze::{Maze, Neighbor};

#[test]
fn neighbor_at() {
    let t = Maze::new(7, 3);
    for c in 0..t.len() {
        println!("{}: {:?}", c, t.neighbors(c));
    }
}

#[test]
fn neighbor_at_boundaries() {
    let t = Maze::new(3, 2);
    // top-left cell: no north, no west
    assert!(t.neighbor_at(0, Neighbor::North).is_none());
    assert!(t.neighbor_at(0, Neighbor::West).is_none());
    assert_eq!(t.neighbor_at(0, Neighbor::East).unwrap().idx, 1);
    assert_eq!(t.neighbor_at(0, Neighbor::South).unwrap().idx, 3);
    // bottom-right cell: no south, no east
    assert!(t.neighbor_at(5, Neighbor::South).is_none());
    assert!(t.neighbor_at(5, Neighbor::East).is_none());
    assert_eq!(t.neighbor_at(5, Neighbor::North).unwrap().idx, 2);
    assert_eq!(t.neighbor_at(5, Neighbor::West).unwrap().idx, 4);
}

#[test]
fn link_is_symmetric_and_unlink_undoes_it() {
    let mut m = Maze::new(3, 3);
    m.link(4, Neighbor::East);
    assert!(m.cell(4).has_link(Neighbor::East));
    assert!(m.cell(5).has_link(Neighbor::West));
    m.unlink(4, Neighbor::East);
    assert!(!m.cell(4).has_link(Neighbor::East));
    assert!(!m.cell(5).has_link(Neighbor::West));
}

#[test]
fn linked_neighbors_sees_passages() {
    let mut m = Maze::new(3, 3);
    m.link(4, Neighbor::North);
    m.link(4, Neighbor::West);
    let nbs = m.linked_neighbors(4);
    assert_eq!(nbs.len(), 2);
    assert!(nbs.iter().any(|n| n.idx == 1));
    assert!(nbs.iter().any(|n| n.idx == 3));
    assert!(m.linked_neighbors(8).is_empty());
}

#[test]
fn middle_cell_and_dims() {
    let m = Maze::new(7, 3);
    assert_eq!(m.len(), 21);
    assert_eq!(m.width(), 7);
    assert_eq!(m.height(), 3);
    assert_eq!(m.middle_cell(), 21 / 2 + 7 / 2);
}
