use boxtree::{Chunk, Compression, HiddenLeaf, Leaf, Pos, Tree};

struct Plain;

impl Compression for Plain {
    fn compress(&mut self, _pos: Pos, _depth: u8, _chunk: &Chunk<HiddenLeaf>) -> Option<HiddenLeaf> {
        None
    }

    fn decompress(
        &mut self,
        _pos: Pos,
        _depth: u8,
        _leaf: HiddenLeaf,
        _chunk: &mut Chunk<HiddenLeaf>,
    ) {
    }
}

fn world(depth: u8, max_nodes: u16) -> Tree<Plain> {
    match Tree::new(depth, max_nodes, Plain) {
        Ok(t) => t,
        Err(e) => panic!("no tree: {:?}", e),
    }
}

fn fill(t: &mut Tree<Plain>, x: u32, y: u32, z: u32) {
    assert_eq!(t.set_at_pos(Pos::new(x, y, z), Leaf::from_solid_box_spec(true, 1)), Ok(true));
}

fn surface(t: &Tree<Plain>, x: u32, y: u32, z: u32) -> bool {
    t.get_at_pos(Pos::new(x, y, z)).is_surface()
}

fn solid_at(t: &Tree<Plain>, x: u32, y: u32, z: u32) -> bool {
    t.get_at_pos(Pos::new(x, y, z)).is_solid()
}

/// The rule, looked up box by box: not void, and one of the 26 around is not solid.
fn rule(t: &Tree<Plain>, x: u32, y: u32, z: u32) -> bool {
    if t.get_at_pos(Pos::new(x, y, z)).is_void() {
        return false;
    }
    for dz in 0..3u32 {
        for dy in 0..3u32 {
            for dx in 0..3u32 {
                if (dx, dy, dz) == (1, 1, 1) {
                    continue;
                }
                let n = Pos::new(
                    x.wrapping_add(dx).wrapping_sub(1),
                    y.wrapping_add(dy).wrapping_sub(1),
                    z.wrapping_add(dz).wrapping_sub(1),
                );
                if !t.get_at_pos(n).is_solid() {
                    return true;
                }
            }
        }
    }
    false
}

#[test]
fn lone_box_is_on_the_surface() {
    let mut t = world(2, 8);
    fill(&mut t, 10, 10, 10);
    assert!(surface(&t, 10, 10, 10));
    assert!(!surface(&t, 11, 10, 10));
    assert!(t.get_at_pos(Pos::new(11, 10, 10)).is_void());
}

#[test]
fn enclosed_box_is_off_the_surface() {
    let mut t = world(2, 8);
    for z in 4..7 {
        for y in 4..7 {
            for x in 4..7 {
                if (x, y, z) != (5, 5, 5) {
                    fill(&mut t, x, y, z);
                }
            }
        }
    }
    fill(&mut t, 5, 5, 5);
    assert!(!surface(&t, 5, 5, 5));
    for z in 4..7 {
        for y in 4..7 {
            for x in 4..7 {
                if (x, y, z) != (5, 5, 5) {
                    assert!(surface(&t, x, y, z));
                }
            }
        }
    }
}

#[test]
fn the_last_neighbour_closes_the_box_in() {
    let mut t = world(2, 8);
    fill(&mut t, 5, 5, 5);
    let mut around = Vec::new();
    for z in 4..7 {
        for y in 4..7 {
            for x in 4..7 {
                if (x, y, z) != (5, 5, 5) {
                    around.push((x, y, z));
                }
            }
        }
    }
    for (n, &(x, y, z)) in around.iter().enumerate() {
        assert!(surface(&t, 5, 5, 5));
        fill(&mut t, x, y, z);
        assert_eq!(surface(&t, 5, 5, 5), n + 1 < around.len());
    }
    assert!(!surface(&t, 5, 5, 5));
}

#[test]
fn an_open_corner_neighbour_keeps_the_box_on_the_surface() {
    let mut t = world(2, 8);
    for z in 4..7 {
        for y in 4..7 {
            for x in 4..7 {
                if (x, y, z) != (6, 6, 6) {
                    fill(&mut t, x, y, z);
                }
            }
        }
    }
    // only the corner (6, 6, 6) is open
    assert!(surface(&t, 5, 5, 5));
    fill(&mut t, 6, 6, 6);
    assert!(!surface(&t, 5, 5, 5));
}

#[test]
fn an_open_edge_neighbour_keeps_the_box_on_the_surface() {
    let mut t = world(2, 8);
    for z in 4..7 {
        for y in 4..7 {
            for x in 4..7 {
                if (x, y, z) != (6, 6, 5) {
                    fill(&mut t, x, y, z);
                }
            }
        }
    }
    assert!(surface(&t, 5, 5, 5));
    fill(&mut t, 6, 6, 5);
    assert!(!surface(&t, 5, 5, 5));
}

#[test]
fn flags_follow_the_rule_after_every_insertion() {
    let mut t = world(2, 16);
    let mut seed: u32 = 12345;
    let mut placed = Vec::new();
    for _ in 0..200 {
        seed = seed.wrapping_mul(1664525).wrapping_add(1013904223);
        let x = 14 + ((seed >> 8) % 5);
        let y = 14 + ((seed >> 13) % 5);
        let z = (254 + ((seed >> 18) % 5)) % 256;
        if solid_at(&t, x, y, z) {
            continue;
        }
        fill(&mut t, x, y, z);
        placed.push((x, y, z));
        for cz in 0..9u32 {
            for cy in 12..21u32 {
                for cx in 12..21u32 {
                    let pz = (252 + cz) % 256;
                    assert_eq!(surface(&t, cx, cy, pz), rule(&t, cx, cy, pz));
                }
            }
        }
    }
    assert!(placed.len() > 50);
}

#[test]
fn neighbours_across_the_seam_count() {
    let mut t = world(2, 64);
    // a solid 3 x 3 x 3 block about (0, 0, 0), which wraps around the world
    let near = [255u32, 0, 1];
    for &z in near.iter() {
        for &y in near.iter() {
            for &x in near.iter() {
                fill(&mut t, x, y, z);
            }
        }
    }
    assert!(!surface(&t, 0, 0, 0));
    assert!(surface(&t, 255, 0, 0));
    assert!(surface(&t, 1, 1, 1));
    assert!(surface(&t, 255, 255, 255));
}
