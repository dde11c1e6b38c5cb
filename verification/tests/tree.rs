use boxtree::{
    Chunk, Compression, ConfigError, HiddenLeaf, Info, Leaf, Pos, Tree, Unsupported,
};

struct NoCompression;

impl Compression for NoCompression {
    fn compress(&mut self, _pos: Pos, _depth: u8, _chunk: &Chunk<HiddenLeaf>) -> Option<HiddenLeaf> {
        None
    }

    fn decompress(
        &mut self,
        _pos: Pos,
        _depth: u8,
        _leaf: HiddenLeaf,
        _chunk: &mut Chunk<HiddenLeaf>,
    ) {
    }
}

fn tree(depth: u8, max_nodes: u16) -> Tree<NoCompression> {
    match Tree::new(depth, max_nodes, NoCompression) {
        Ok(t) => t,
        Err(e) => panic!("no tree: {:?}", e),
    }
}

fn solid(spec: u16) -> Leaf {
    Leaf::from_solid_box_spec(true, spec)
}

fn place(t: &mut Tree<NoCompression>, x: u32, y: u32, z: u32, spec: u16) {
    assert_eq!(t.set_at_pos(Pos::new(x, y, z), solid(spec)), Ok(true));
}

fn at(t: &Tree<NoCompression>, x: u32, y: u32, z: u32) -> u16 {
    t.get_at_pos(Pos::new(x, y, z)).as_child().value
}

#[test]
fn new_rejects_depth_out_of_range() {
    assert_eq!(Tree::new(1, 8, NoCompression).err(), Some(ConfigError::Depth));
    assert_eq!(Tree::new(0, 8, NoCompression).err(), Some(ConfigError::Depth));
    assert_eq!(Tree::new(9, 100, NoCompression).err(), Some(ConfigError::Depth));
    assert!(Tree::new(2, 8, NoCompression).is_ok());
    assert!(Tree::new(8, 8, NoCompression).is_ok());
}

#[test]
fn new_rejects_max_nodes_out_of_range() {
    assert_eq!(Tree::new(2, 1, NoCompression).err(), Some(ConfigError::MaxNodes));
    assert_eq!(Tree::new(3, 2, NoCompression).err(), Some(ConfigError::MaxNodes));
    assert_eq!(Tree::new(2, 32768, NoCompression).err(), Some(ConfigError::MaxNodes));
    assert_eq!(Tree::new(2, 65535, NoCompression).err(), Some(ConfigError::MaxNodes));
    assert!(Tree::new(2, 2, NoCompression).is_ok());
    assert!(Tree::new(3, 3, NoCompression).is_ok());
    // the depth is looked at first
    assert_eq!(Tree::new(9, 1, NoCompression).err(), Some(ConfigError::Depth));
}

#[test]
fn new_threads_the_free_list_in_ascending_order() {
    let t = tree(2, 5);
    assert_eq!(*t.depth(), 2);
    assert_eq!(*t.first_free_node(), 1);
    assert_eq!(*t.num_free_nodes(), 4);
    assert_eq!(t.chunks().len(), 5);
    assert_eq!(t.infos().len(), 5);
    for s in 0..4096 {
        assert_eq!(t.chunks()[0].children[s].value, 0);
    }
    assert_eq!(t.chunks()[1].children[0].value, 2);
    assert_eq!(t.chunks()[2].children[0].value, 3);
    assert_eq!(t.chunks()[3].children[0].value, 4);
    assert_eq!(t.chunks()[4].children[0].value, 0);
    for c in 1..5 {
        for s in 1..4096 {
            assert_eq!(t.chunks()[c].children[s].value, 0);
        }
    }
    for c in 0..5 {
        assert_eq!(
            t.infos()[c],
            Info {
                parent_index: 0,
                num_void_children: 4096,
                num_solid_children: 0,
                num_surface_children: 0
            }
        );
    }
}

#[test]
fn empty_tree_is_void_everywhere() {
    let t = tree(2, 8);
    assert_eq!(at(&t, 0, 0, 0), 0);
    assert_eq!(at(&t, 255, 255, 255), 0);
    assert_eq!(at(&t, 17, 4, 200), 0);
    assert_eq!(at(&t, 0xffff_ffff, 0x1234_5678, 256), 0);
}

#[test]
fn example_scenario() {
    let mut t = tree(2, 8);
    assert_eq!(t.set_at_pos(Pos::new(0, 0, 0), solid(5)), Ok(true));
    let l = t.get_at_pos(Pos::new(0, 0, 0));
    assert!(l.is_solid());
    assert_eq!(l.box_spec(), 5);
    assert!(l.is_surface());
    assert!(!l.is_node());
    assert_eq!(l.as_child().value, 0x6005);
    assert!(t.get_at_pos(Pos::new(1, 0, 0)).is_void());
    assert_eq!(t.get_at_pos(Pos::new(1, 0, 0)).as_child().value, 0);
}

#[test]
fn round_trip_keeps_specifier_and_solid_flag() {
    let mut t = tree(3, 16);
    let places: [(u32, u32, u32, u16); 5] =
        [(0, 0, 0, 1), (4095, 4095, 4095, 0x1fff), (17, 300, 2049, 77), (16, 0, 0, 2), (15, 0, 0, 3)];
    for &(x, y, z, spec) in places.iter() {
        assert_eq!(t.set_non_void_at_pos(Pos::new(x, y, z), solid(spec)), Ok(true));
        let l = t.get_at_pos(Pos::new(x, y, z));
        assert!(l.is_solid());
        assert_eq!(l.box_spec(), spec);
        assert_eq!(l.ext_spec(), 0x2000 | spec);
        assert!(l.is_surface());
    }
    for &(x, y, z, spec) in places.iter() {
        assert_eq!(at(&t, x, y, z), 0x6000 | spec);
    }
}

#[test]
fn insertion_takes_the_surface_flag_of_the_leaf_for_nothing() {
    let mut t = tree(2, 8);
    let flagged = Leaf::new(boxtree::Child::leaf_from_surface_solid_box_spec(true, true, 9));
    let bare = Leaf::new(boxtree::Child::leaf_from_surface_solid_box_spec(false, true, 9));
    let mut u = tree(2, 8);
    assert_eq!(t.set_at_pos(Pos::new(3, 3, 3), flagged), Ok(true));
    assert_eq!(u.set_at_pos(Pos::new(3, 3, 3), bare), Ok(true));
    assert_eq!(at(&t, 3, 3, 3), at(&u, 3, 3, 3));
    assert_eq!(at(&t, 3, 3, 3), 0x6009);
}

#[test]
fn lookup_wraps_around_at_the_width_of_the_world() {
    let mut t = tree(2, 8);
    place(&mut t, 3, 250, 255, 7);
    assert_eq!(at(&t, 3, 250, 255), 0x6007);
    assert_eq!(at(&t, 3 + 256, 250, 255), 0x6007);
    assert_eq!(at(&t, 3, 250 + 256 * 5, 255), 0x6007);
    assert_eq!(at(&t, 3, 250, 255 + 256 * 77), 0x6007);
    assert_eq!(at(&t, 3 + 0xffff_ff00, 250 + 0x100, 255 + 0x7f00), 0x6007);
    assert_eq!(at(&t, 4 + 256, 250, 255), 0);
    // an insertion through an alias lands on the same box
    place(&mut t, 9 + 512, 9, 9 + 256, 8);
    assert_eq!(at(&t, 9, 9, 9), 0x6008);
    assert_eq!(
        t.set_at_pos(Pos::new(3 + 256, 250, 255), solid(1)),
        Err(Unsupported::SameSolidity)
    );
}

#[test]
fn depth_eight_reads_all_32_bits() {
    let mut t = tree(8, 40);
    place(&mut t, 0xffff_ffff, 0, 0x8000_0000, 3);
    assert_eq!(at(&t, 0xffff_ffff, 0, 0x8000_0000), 0x6003);
    assert_eq!(at(&t, 0x7fff_ffff, 0, 0x8000_0000), 0);
    assert_eq!(at(&t, 0xffff_ffff, 0, 0), 0);
    assert_eq!(*t.num_free_nodes(), 39 - 7);
    // the neighbour across the seam of the world
    place(&mut t, 0, 0, 0x8000_0000, 4);
    assert_eq!(at(&t, 0, 0, 0x8000_0000), 0x6004);
    assert_eq!(at(&t, 0xffff_ffff, 0, 0x8000_0000), 0x6003);
}

#[test]
fn capacity_is_one_less_than_the_number_of_nodes() {
    // depth 2: every box in another slot of the root takes one chunk
    let mut t = tree(2, 4);
    assert_eq!(*t.num_free_nodes(), 3);
    place(&mut t, 0, 0, 0, 1);
    assert_eq!(*t.num_free_nodes(), 2);
    assert_eq!(*t.first_free_node(), 2);
    place(&mut t, 16, 0, 0, 2);
    assert_eq!(*t.num_free_nodes(), 1);
    place(&mut t, 0, 16, 0, 3);
    assert_eq!(*t.num_free_nodes(), 0);
    assert_eq!(*t.first_free_node(), 0);
    // the fourth chunk is not there
    assert_eq!(t.set_at_pos(Pos::new(0, 0, 16), solid(4)), Ok(false));
    assert_eq!(at(&t, 0, 0, 16), 0);
    assert_eq!(at(&t, 0, 0, 0), 0x6001);
    assert_eq!(at(&t, 16, 0, 0), 0x6002);
    assert_eq!(at(&t, 0, 16, 0), 0x6003);
    assert_eq!(*t.num_free_nodes(), 0);
    // a box in a chunk that is there still goes in
    place(&mut t, 5, 5, 5, 5);
    assert_eq!(at(&t, 5, 5, 5), 0x6005);
    assert_eq!(t.set_at_pos(Pos::new(0, 0, 16), solid(4)), Ok(false));
}

#[test]
fn exhaustion_half_way_down_keeps_the_chunks_and_changes_no_box() {
    // depth 3: a box in an empty tree takes two chunks
    let mut t = tree(3, 4);
    place(&mut t, 0, 0, 0, 1);
    assert_eq!(*t.num_free_nodes(), 1);
    // another slot of the root: the first chunk is there, the second is not
    assert_eq!(t.set_at_pos(Pos::new(256, 0, 0), solid(2)), Ok(false));
    assert_eq!(*t.num_free_nodes(), 0);
    assert_eq!(*t.first_free_node(), 0);
    assert_eq!(at(&t, 256, 0, 0), 0);
    assert_eq!(at(&t, 0, 0, 0), 0x6001);
    assert_eq!(at(&t, 1, 0, 0), 0);
    // the chunk that was hung in is a child of the root
    assert_eq!(t.chunks()[0].children[1].value, 0x8003);
    assert_eq!(t.infos()[3].parent_index, 0);
    assert_eq!(t.set_at_pos(Pos::new(256, 0, 0), solid(2)), Ok(false));
    // beside the first box there is room
    place(&mut t, 1, 0, 0, 3);
    assert_eq!(at(&t, 1, 0, 0), 0x6003);
}

#[test]
fn chunks_are_taken_from_the_head_of_the_free_list() {
    let mut t = tree(3, 6);
    place(&mut t, 0x123, 0x456, 0x789, 1);
    // root slot: nibbles 1, 4, 7; the chunk below is 1, the bottom chunk 2
    assert_eq!(t.chunks()[0].children[0x741].value, 0x8001);
    assert_eq!(t.chunks()[1].children[0x852].value, 0x8002);
    assert_eq!(t.chunks()[2].children[0x963].value, 0x6001);
    assert_eq!(t.infos()[1].parent_index, 0);
    assert_eq!(t.infos()[2].parent_index, 1);
    assert_eq!(*t.first_free_node(), 3);
    assert_eq!(*t.num_free_nodes(), 3);
    assert_eq!(t.chunks()[3].children[0].value, 4);
    assert_eq!(t.chunks()[1].children[0].value, 0);
    assert_eq!(t.chunks()[2].children[0].value, 0);
}

#[test]
fn counter_of_void_children_goes_up_with_each_box() {
    let mut t = tree(2, 4);
    place(&mut t, 0, 0, 0, 1);
    assert_eq!(t.infos()[1].num_void_children, 4097);
    assert_eq!(t.infos()[0].num_void_children, 4096);
    place(&mut t, 1, 0, 0, 1);
    place(&mut t, 2, 0, 0, 1);
    assert_eq!(t.infos()[1].num_void_children, 4099);
    assert_eq!(t.infos()[1].num_solid_children, 0);
    assert_eq!(t.infos()[1].num_surface_children, 0);
    place(&mut t, 16, 0, 0, 1);
    assert_eq!(t.infos()[2].num_void_children, 4097);
    assert_eq!(t.infos()[1].num_void_children, 4099);
    assert_eq!(t.infos()[0].num_void_children, 4096);
}

#[test]
fn unsupported_edits_leave_the_tree_alone() {
    let mut t = tree(2, 8);
    // delete
    assert_eq!(t.set_void_at_pos(Pos::new(0, 0, 0)), Err(Unsupported::Delete));
    assert_eq!(t.set_at_pos(Pos::new(0, 0, 0), Leaf::void()), Err(Unsupported::Delete));
    // a passable box in empty space
    let gas = Leaf::from_solid_box_spec(false, 4);
    assert_eq!(t.set_at_pos(Pos::new(0, 0, 0), gas), Err(Unsupported::SameSolidity));
    assert_eq!(t.set_non_void_at_pos(Pos::new(0, 0, 0), gas), Err(Unsupported::SameSolidity));
    assert_eq!(*t.num_free_nodes(), 7);
    assert_eq!(at(&t, 0, 0, 0), 0);
    place(&mut t, 0, 0, 0, 1);
    // a solid box on a solid box
    assert_eq!(t.set_at_pos(Pos::new(0, 0, 0), solid(2)), Err(Unsupported::SameSolidity));
    // a passable box on a solid box
    assert_eq!(t.set_at_pos(Pos::new(0, 0, 0), gas), Err(Unsupported::Transparent));
    assert_eq!(t.set_at_pos(Pos::new(0, 0, 0), Leaf::void()), Err(Unsupported::Delete));
    assert_eq!(at(&t, 0, 0, 0), 0x6001);
    assert_eq!(*t.num_free_nodes(), 6);
}

#[test]
fn neighbor_mut_finds_the_slot_of_the_neighbour() {
    let mut t = tree(2, 8);
    place(&mut t, 0, 0, 0, 1);
    place(&mut t, 255, 0, 0, 2);
    let r = t.neighbor_mut(0, Pos::new(0, 0, 0), Pos::new(0, 0, 0));
    assert_eq!((r.chunk, r.index), (1, 0));
    assert_eq!(t.chunks()[r.chunk as usize].children[r.index as usize].value, 0x6001);
    // one step back along x wraps around to the far side of the world
    let back = 0u32.wrapping_sub(1);
    let s = t.neighbor_mut(0, Pos::new(0, 0, 0), Pos::new(back, 0, 0));
    assert_eq!((s.chunk, s.index), (2, 15));
    assert_eq!(t.chunks()[s.chunk as usize].children[s.index as usize].value, 0x6002);
    // a neighbour in empty space: the void slot of the root
    let v = t.neighbor_mut(0, Pos::new(0, 0, 0), Pos::new(0, 16, 0));
    assert_eq!((v.chunk, v.index), (0, 16));
    assert_eq!(t.chunks()[0].children[16].value, 0);
    // a neighbour in a chunk that holds a box elsewhere
    let w = t.neighbor_mut(0, Pos::new(0, 0, 0), Pos::new(1, 2, 3));
    assert_eq!((w.chunk, w.index), (1, 1 + 2 * 16 + 3 * 256));
}

#[test]
fn chunk_views_keep_every_slot() {
    let mut c = Chunk::<boxtree::Child>::void();
    c.children[0] = boxtree::Child::new(0x2001);
    c.children[4095] = boxtree::Child::new(0x6002);
    c[7] = boxtree::Child::new(0x0003);
    assert_eq!(c[7].value, 3);
    let leaves = c.as_leaf();
    assert_eq!(leaves.children[0].as_child().value, 0x2001);
    assert_eq!(leaves.children[7].as_child().value, 0x0003);
    assert_eq!(leaves.children[4095].as_child().value, 0x6002);
    assert_eq!(leaves.children[1].as_child().value, 0);
    let back = leaves.as_child();
    for s in 0..4096 {
        assert_eq!(back.children[s].value, c.children[s].value);
    }
    let hidden = c.as_hidden_leaf();
    assert_eq!(hidden.children[4095].as_child().value, 0x6002);
    let shown = hidden.as_child();
    for s in 0..4096 {
        assert_eq!(shown.children[s].as_child().value, c.children[s].value);
    }
    let copy = c.clone();
    assert_eq!(copy.children[4095].value, 0x6002);
}

#[test]
fn a_box_takes_as_many_chunks_as_its_way_lacks() {
    let mut t = tree(3, 16);
    assert_eq!(*t.num_free_nodes(), 15);
    // an empty tree: the way lacks a chunk at level 1 and one at level 0
    place(&mut t, 0, 0, 0, 1);
    assert_eq!(*t.num_free_nodes(), 13);
    // the same chunk at the bottom
    place(&mut t, 15, 15, 15, 1);
    assert_eq!(*t.num_free_nodes(), 13);
    // the same chunk at level 1, another at the bottom
    place(&mut t, 16, 0, 0, 1);
    assert_eq!(*t.num_free_nodes(), 12);
    assert_eq!(t.chunks()[1].children[1].value, 0x8003);
    assert_eq!(t.infos()[3].parent_index, 1);
    // another slot of the root
    place(&mut t, 0, 256, 0, 1);
    assert_eq!(*t.num_free_nodes(), 10);
    assert_eq!(t.chunks()[0].children[16].value, 0x8004);
    assert_eq!(t.chunks()[4].children[0].value, 0x8005);
    assert_eq!(t.infos()[4].parent_index, 0);
    assert_eq!(t.infos()[5].parent_index, 4);
    assert_eq!(*t.first_free_node(), 6);
}

#[test]
fn chunk_index_puts_the_nibbles_side_by_side() {
    let p = Pos::new(0x1234_5678, 0x9abc_def0, 0x0fed_cba9);
    assert_eq!(boxtree::coords::chunk_index(p, 0), 0x908);
    assert_eq!(boxtree::coords::chunk_index(p, 1), 0xaf7);
    assert_eq!(boxtree::coords::chunk_index(p, 7), 0x091);
    assert_eq!(boxtree::coords::chunk_index(Pos::new(15, 15, 15), 0), 4095);
    assert_eq!(boxtree::coords::chunk_index(Pos::new(16, 0, 0), 0), 0);
    assert_eq!(boxtree::coords::chunk_index(Pos::new(16, 0, 0), 1), 1);
}

#[test]
fn displace_wraps_at_the_width_of_the_world() {
    let back = |n: u32| 0u32.wrapping_sub(n);
    let d = boxtree::coords::displace(Pos::new(0, 255, 7), Pos::new(back(1), 1, back(2)), 2);
    assert_eq!(d, Pos::new(255, 0, 5));
    let d = boxtree::coords::displace(Pos::new(0, 255, 7), Pos::new(back(1), 1, back(2)), 3);
    assert_eq!(d, Pos::new(4095, 256, 5));
    let d = boxtree::coords::displace(Pos::new(0, 0xffff_ffff, 7), Pos::new(back(1), 1, 256), 8);
    assert_eq!(d, Pos::new(0xffff_ffff, 0, 263));
    let d = boxtree::coords::displace(Pos::new(0x1234, 0, 0), Pos::new(0, 0, 0), 2);
    assert_eq!(d, Pos::new(0x34, 0, 0));
    let d = boxtree::coords::displace(Pos::new(1, 2, 3), Pos::new(4, 5, 6), 1);
    assert_eq!(d, Pos::new(5, 7, 9));
}

fn raw(t: &Tree<NoCompression>) -> (Vec<u16>, Vec<Info>, u16, u16, u8) {
    let mut slots = Vec::new();
    for c in t.chunks().iter() {
        for s in c.children.iter() {
            slots.push(s.value);
        }
    }
    (slots, t.infos().to_vec(), *t.first_free_node(), *t.num_free_nodes(), *t.depth())
}

#[test]
fn the_way_to_the_box_comes_before_the_leaf() {
    // no chunk is left, and the way to (16, 0, 0) lacks one
    let mut t = tree(2, 2);
    place(&mut t, 0, 0, 0, 1);
    assert_eq!(*t.num_free_nodes(), 0);
    let before = raw(&t);
    let gas = Leaf::from_solid_box_spec(false, 5);
    assert_eq!(t.set_non_void_at_pos(Pos::new(16, 0, 0), gas), Ok(false));
    assert_eq!(t.set_at_pos(Pos::new(16, 0, 0), gas), Ok(false));
    assert_eq!(t.set_at_pos(Pos::new(16, 0, 0), solid(4)), Ok(false));
    assert_eq!(raw(&t), before);
    assert_eq!(at(&t, 16, 0, 0), 0);
    assert_eq!(at(&t, 0, 0, 0), 0x6001);
    // where the way is built out the leaf decides
    assert_eq!(t.set_at_pos(Pos::new(1, 0, 0), gas), Err(Unsupported::SameSolidity));
    assert_eq!(t.set_at_pos(Pos::new(0, 0, 0), gas), Err(Unsupported::Transparent));
    assert_eq!(t.set_at_pos(Pos::new(0, 0, 0), solid(4)), Err(Unsupported::SameSolidity));
    assert_eq!(raw(&t), before);
    // a void leaf is turned down before the way is looked at
    assert_eq!(t.set_at_pos(Pos::new(16, 0, 0), Leaf::void()), Err(Unsupported::Delete));
    assert_eq!(raw(&t), before);
}

#[test]
fn a_passable_leaf_takes_the_chunks_that_are_there_where_they_do_not_suffice() {
    // depth 3: the way to a box in an empty tree lacks two chunks, and one is there
    let mut t = tree(3, 4);
    place(&mut t, 0, 0, 0, 1);
    assert_eq!(*t.num_free_nodes(), 1);
    let gas = Leaf::from_solid_box_spec(false, 5);
    assert_eq!(t.set_at_pos(Pos::new(256, 0, 0), gas), Ok(false));
    assert_eq!(*t.num_free_nodes(), 0);
    assert_eq!(*t.first_free_node(), 0);
    assert_eq!(t.chunks()[0].children[1].value, 0x8003);
    assert_eq!(t.infos()[3].parent_index, 0);
    assert_eq!(at(&t, 256, 0, 0), 0);
    assert_eq!(at(&t, 0, 0, 0), 0x6001);
}

#[test]
fn a_passable_leaf_is_turned_down_where_the_chunks_suffice() {
    let mut t = tree(3, 4);
    let before = raw(&t);
    let gas = Leaf::from_solid_box_spec(false, 5);
    // the way lacks two chunks, and three are there
    assert_eq!(t.set_at_pos(Pos::new(256, 0, 0), gas), Err(Unsupported::SameSolidity));
    assert_eq!(raw(&t), before);
    place(&mut t, 0, 0, 0, 1);
    // one chunk is left, and the way to (16, 0, 0) lacks one
    let before = raw(&t);
    assert_eq!(t.set_at_pos(Pos::new(16, 0, 0), gas), Err(Unsupported::SameSolidity));
    assert_eq!(raw(&t), before);
}
