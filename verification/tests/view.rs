use boxtree::{Chunk, Compression, Frustum, HiddenLeaf, Leaf, Plane, Pos, Tree, Visit};

struct Plain;

impl Compression for Plain {
    fn compress(&mut self, _pos: Pos, _depth: u8, _chunk: &Chunk<HiddenLeaf>) -> Option<HiddenLeaf> {
        None
    }

    fn decompress(
        &mut self,
        _pos: Pos,
        _depth: u8,
        _leaf: HiddenLeaf,
        _chunk: &mut Chunk<HiddenLeaf>,
    ) {
    }
}

fn world(depth: u8, max_nodes: u16) -> Tree<Plain> {
    match Tree::new(depth, max_nodes, Plain) {
        Ok(t) => t,
        Err(e) => panic!("no tree: {:?}", e),
    }
}

fn fill(t: &mut Tree<Plain>, x: u32, y: u32, z: u32, spec: u16) {
    assert_eq!(t.set_at_pos(Pos::new(x, y, z), Leaf::from_solid_box_spec(true, spec)), Ok(true));
}

const ONE: f64 = (1u64 << 28) as f64;

/// A plane through `origin` with the normal `n`, in fixed point.
fn plane(origin: [f64; 3], n: [f64; 3], dist: f64) -> Plane {
    let x = (n[0] * ONE).ceil() as i64;
    let y = (n[1] * ONE).ceil() as i64;
    let z = (n[2] * ONE).ceil() as i64;
    let d = (-origin[0] * (x as f64)).ceil() as i64
        + (-origin[1] * (y as f64)).ceil() as i64
        + (-origin[2] * (z as f64)).ceil() as i64
        + (dist * ONE).ceil() as i64;
    Plane { x, y, z, dist: d }
}

/// The view volume of an eye at `origin` with four side planes, `dist` deep.
fn frustum(origin: [f64; 3], sides: [[f64; 3]; 4], dist: f64) -> Frustum {
    let mut far = [0.0f64; 3];
    for s in sides.iter() {
        for i in 0..3 {
            far[i] -= s[i];
        }
    }
    let len = (far[0] * far[0] + far[1] * far[1] + far[2] * far[2]).sqrt();
    for i in 0..3 {
        far[i] /= len;
    }
    Frustum {
        planes: [
            plane(origin, sides[0], 0.0),
            plane(origin, sides[1], 0.0),
            plane(origin, sides[2], 0.0),
            plane(origin, sides[3], 0.0),
            plane(origin, far, dist),
        ],
    }
}

fn everything() -> Frustum {
    let open = Plane { x: 0, y: 0, z: 0, dist: 0 };
    Frustum { planes: [open; 5] }
}

fn value(p: &Plane, x: u32, y: u32, z: u32) -> i128 {
    let pos = |a: i64| if a > 0 { a as i128 } else { 0 };
    (p.dist as i128)
        + (p.x as i128) * (x as i128)
        + (p.y as i128) * (y as i128)
        + (p.z as i128) * (z as i128)
        + pos(p.x)
        + pos(p.y)
        + pos(p.z)
}

fn holds(f: &Frustum, x: u32, y: u32, z: u32) -> bool {
    f.planes.iter().all(|p| value(p, x, y, z) >= 0)
}

/// The place of a box in the order of the walk through a tree of depth 2.
fn rank2(p: Pos) -> u32 {
    let top = (p.x >> 4) | ((p.y >> 4) << 4) | ((p.z >> 4) << 8);
    let low = (p.x & 15) | ((p.y & 15) << 4) | ((p.z & 15) << 8);
    top * 4096 + low
}

fn oracle(t: &Tree<Plain>, f: &Frustum, boxes: &[(u32, u32, u32)]) -> Vec<(u32, u32, u32, u16)> {
    let mut seen: Vec<(u32, u32, u32, u16)> = Vec::new();
    for &(x, y, z) in boxes.iter() {
        let l = t.get_at_pos(Pos::new(x, y, z));
        if l.is_surface() && holds(f, x, y, z) {
            seen.push((x, y, z, l.as_child().value));
        }
    }
    seen.sort_by_key(|&(x, y, z, _)| rank2(Pos::new(x, y, z)));
    seen.dedup();
    seen
}

fn listed(v: &[Visit]) -> Vec<(u32, u32, u32, u16)> {
    v.iter().map(|v| (v.pos.x, v.pos.y, v.pos.z, v.child.value)).collect()
}

#[test]
fn empty_tree_shows_nothing() {
    let t = world(2, 4);
    assert!(t.cast_view(&everything()).is_empty());
}

#[test]
fn open_volume_lists_every_surface_box_in_walk_order() {
    let mut t = world(2, 16);
    let boxes = [(17u32, 0u32, 0u32), (0, 0, 0), (1, 0, 0), (0, 1, 0), (0, 0, 1), (15, 15, 15), (16, 16, 16), (255, 255, 255)];
    for (i, &(x, y, z)) in boxes.iter().enumerate() {
        fill(&mut t, x, y, z, i as u16 + 1);
    }
    let seen = listed(&t.cast_view(&everything()));
    assert_eq!(
        seen,
        vec![
            (0, 0, 0, 0x6002),
            (1, 0, 0, 0x6003),
            (0, 1, 0, 0x6004),
            (0, 0, 1, 0x6005),
            (15, 15, 15, 0x6006),
            (17, 0, 0, 0x6001),
            (16, 16, 16, 0x6007),
            (255, 255, 255, 0x6008),
        ]
    );
}

#[test]
fn enclosed_boxes_are_passed_by() {
    let mut t = world(2, 8);
    for z in 4..7 {
        for y in 4..7 {
            for x in 4..7 {
                fill(&mut t, x, y, z, 1);
            }
        }
    }
    let seen = t.cast_view(&everything());
    assert_eq!(seen.len(), 26);
    assert!(seen.iter().all(|v| (v.pos.x, v.pos.y, v.pos.z) != (5, 5, 5)));
    assert!(seen.iter().all(|v| v.child.value == 0x6001));
}

#[test]
fn a_plane_cuts_the_world_at_the_far_corner_of_a_box() {
    let mut t = world(2, 16);
    for x in 0..40 {
        fill(&mut t, x, 3, 3, 1);
    }
    // boxes whose far corner along -x is not behind x = 20: x <= 20
    let one = 1i64 << 28;
    let cut = Plane { x: -one, y: 0, z: 0, dist: 20 * one };
    let open = Plane { x: 0, y: 0, z: 0, dist: 0 };
    let f = Frustum { planes: [cut, open, open, open, open] };
    let seen = listed(&t.cast_view(&f));
    let want: Vec<(u32, u32, u32, u16)> = (0..=20).map(|x| (x, 3, 3, 0x6001)).collect();
    assert_eq!(seen, want);
    // boxes whose far corner along +x is not behind x = 20: x + 1 >= 20
    let cut = Plane { x: one, y: 0, z: 0, dist: -20 * one };
    let f = Frustum { planes: [open, cut, open, open, open] };
    let seen = listed(&t.cast_view(&f));
    let want: Vec<(u32, u32, u32, u16)> = (19..40).map(|x| (x, 3, 3, 0x6001)).collect();
    assert_eq!(seen, want);
}

#[test]
fn a_closed_volume_shows_nothing() {
    let mut t = world(2, 8);
    fill(&mut t, 0, 0, 0, 1);
    let shut = Plane { x: 0, y: 0, z: 0, dist: -1 };
    let open = Plane { x: 0, y: 0, z: 0, dist: 0 };
    for i in 0..5 {
        let mut planes = [open; 5];
        planes[i] = shut;
        assert!(t.cast_view(&Frustum { planes }).is_empty());
    }
}

#[test]
fn walk_agrees_with_brute_force() {
    let mut t = world(2, 32);
    let mut seed: u32 = 99;
    let mut boxes = Vec::new();
    for _ in 0..400 {
        seed = seed.wrapping_mul(1664525).wrapping_add(1013904223);
        let x = (seed >> 8) % 40;
        let y = (seed >> 14) % 24;
        let z = (seed >> 20) % 40;
        if t.get_at_pos(Pos::new(x, y, z)).is_solid() {
            continue;
        }
        fill(&mut t, x, y, z, (seed % 100) as u16 + 1);
        boxes.push((x, y, z));
    }
    let s = 0.5f64.sqrt();
    let views = [
        frustum([20.0, 12.0, 45.0], [[s, 0.0, -s], [-s, 0.0, -s], [0.0, s, -s], [0.0, -s, -s]], 30.0),
        frustum([20.0, 12.0, 45.0], [[s, 0.0, -s], [-s, 0.0, -s], [0.0, s, -s], [0.0, -s, -s]], 12.0),
        frustum([-3.5, 8.25, 20.0], [[s, s, 0.0], [s, -s, 0.0], [s, 0.0, s], [s, 0.0, -s]], 25.0),
        frustum([10.0, 40.0, 10.0], [[0.6, -0.8, 0.0], [-0.6, -0.8, 0.0], [0.0, -0.8, 0.6], [0.0, -0.8, -0.6]], 100.0),
        frustum([300.0, 300.0, 300.0], [[s, 0.0, s], [-s, 0.0, s], [0.0, s, s], [0.0, -s, s]], 10.0),
    ];
    let mut some = 0;
    let mut cut = 0;
    for f in views.iter() {
        let seen = listed(&t.cast_view(f));
        let want = oracle(&t, f, &boxes);
        assert_eq!(seen, want);
        some += seen.len();
        cut += oracle(&t, &everything(), &boxes).len() - seen.len();
    }
    assert!(some > 0);
    assert!(cut > 0);
}

#[test]
fn walk_climbs_out_of_deep_chunks() {
    let mut t = world(4, 32);
    let boxes = [(0xffffu32, 0xffffu32, 0xffffu32), (0, 0, 0), (0x1000, 0, 0), (0xfff, 0xfff, 0xfff), (0x10, 0, 0)];
    for (i, &(x, y, z)) in boxes.iter().enumerate() {
        fill(&mut t, x, y, z, i as u16 + 1);
    }
    let seen = listed(&t.cast_view(&everything()));
    assert_eq!(
        seen,
        vec![
            (0, 0, 0, 0x6002),
            (0x10, 0, 0, 0x6005),
            (0xfff, 0xfff, 0xfff, 0x6004),
            (0x1000, 0, 0, 0x6003),
            (0xffff, 0xffff, 0xffff, 0x6001),
        ]
    );
    let one = 1i64 << 28;
    let open = Plane { x: 0, y: 0, z: 0, dist: 0 };
    let cut = Plane { x: -one, y: 0, z: 0, dist: 0x800 * one };
    let f = Frustum { planes: [cut, open, open, open, open] };
    let seen = listed(&t.cast_view(&f));
    assert_eq!(seen, vec![(0, 0, 0, 0x6002), (0x10, 0, 0, 0x6005)]);
}
