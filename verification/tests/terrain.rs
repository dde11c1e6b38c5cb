use boxtree::terrain::{column_of, Column};
use boxtree::{Chunk, Compression, HiddenLeaf, Leaf, Pos, Tree, Unsupported};

struct Flat;

impl Compression for Flat {
    fn compress(&mut self, _pos: Pos, _depth: u8, _chunk: &Chunk<HiddenLeaf>) -> Option<HiddenLeaf> {
        None
    }

    fn decompress(
        &mut self,
        _pos: Pos,
        _depth: u8,
        _leaf: HiddenLeaf,
        _chunk: &mut Chunk<HiddenLeaf>,
    ) {
    }
}

fn land(depth: u8, max_nodes: u16) -> Tree<Flat> {
    match Tree::new(depth, max_nodes, Flat) {
        Ok(t) => t,
        Err(e) => panic!("no tree: {:?}", e),
    }
}

fn kind(t: &Tree<Flat>, x: u32, y: u32, z: u32) -> u16 {
    t.get_at_pos(Pos::new(x, y, z)).ext_spec()
}

#[test]
fn a_column_is_as_high_as_its_pixel_is_bright() {
    assert_eq!(column_of(0, 0, 0), Column { top: 0, box_spec: 0 });
    assert_eq!(column_of(255, 255, 255), Column { top: 23, box_spec: 255 });
    assert_eq!(column_of(10, 20, 1), Column { top: 0, box_spec: 10 });
    assert_eq!(column_of(10, 20, 2), Column { top: 1, box_spec: 10 });
    assert_eq!(column_of(100, 0, 200), Column { top: 9, box_spec: 100 });
    assert_eq!(column_of(0, 0, 95), Column { top: 2, box_spec: 31 });
    assert_eq!(column_of(0, 0, 96), Column { top: 3, box_spec: 32 });
}

#[test]
fn raise_places_the_boxes_from_the_bottom_to_the_top() {
    let mut t = land(2, 8);
    let r = t.raise(3, 4, Column { top: 5, box_spec: 77 });
    assert_eq!(r.placed, 6);
    assert_eq!(r.result, Ok(true));
    for h in 0..6 {
        assert_eq!(kind(&t, 3, h, 4), 0x2000 | 77);
        assert!(t.get_at_pos(Pos::new(3, h, 4)).is_surface());
    }
    assert_eq!(kind(&t, 3, 6, 4), 0);
    assert_eq!(kind(&t, 4, 0, 4), 0);
    assert_eq!(*t.num_free_nodes(), 6);
    // a column of one box of the kind 0 is solid all the same
    let r = t.raise(0, 0, Column { top: 0, box_spec: 0 });
    assert_eq!((r.placed, r.result), (1, Ok(true)));
    assert_eq!(t.get_at_pos(Pos::new(0, 0, 0)).as_child().value, 0x6000);
    assert_eq!(kind(&t, 0, 1, 0), 0);
}

#[test]
fn raise_stops_at_a_box_that_is_there() {
    let mut t = land(2, 8);
    assert_eq!(t.set_at_pos(Pos::new(1, 2, 1), Leaf::from_solid_box_spec(true, 9)), Ok(true));
    let r = t.raise(1, 1, Column { top: 4, box_spec: 5 });
    assert_eq!(r.placed, 2);
    assert_eq!(r.result, Err(Unsupported::SameSolidity));
    assert_eq!(kind(&t, 1, 0, 1), 0x2005);
    assert_eq!(kind(&t, 1, 1, 1), 0x2005);
    assert_eq!(kind(&t, 1, 2, 1), 0x2009);
    assert_eq!(kind(&t, 1, 3, 1), 0);
    // the same column again stops at its first box
    let r = t.raise(1, 1, Column { top: 4, box_spec: 5 });
    assert_eq!((r.placed, r.result), (0, Err(Unsupported::SameSolidity)));
}

#[test]
fn raise_stops_where_the_chunks_run_out() {
    let mut t = land(2, 2);
    // heights 0 to 15 lie in one chunk, height 16 in the next
    let r = t.raise(0, 0, Column { top: 20, box_spec: 1 });
    assert_eq!(r.placed, 16);
    assert_eq!(r.result, Ok(false));
    assert_eq!(*t.num_free_nodes(), 0);
    for h in 0..16 {
        assert_eq!(kind(&t, 0, h, 0), 0x2001);
    }
    assert_eq!(kind(&t, 0, 16, 0), 0);
}

#[test]
fn a_column_higher_than_the_world_meets_its_own_foot() {
    let mut t = land(2, 40);
    let r = t.raise(7, 7, Column { top: 300, box_spec: 3 });
    assert_eq!(r.placed, 256);
    assert_eq!(r.result, Err(Unsupported::SameSolidity));
    assert_eq!(kind(&t, 7, 255, 7), 0x2003);
    assert_eq!(*t.num_free_nodes(), 39 - 16);
}
