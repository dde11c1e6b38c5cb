use boxtree::{
    Child, HiddenLeaf, Leaf, BOX_SPEC_BIT_MASK, CHUNK_LEN, CHUNK_SIDE_LEN, CHUNK_SIDE_LEN_LOG2,
    CHUNK_SIDE_MASK, MAX_DEPTH, NODE_BIT, NODE_BIT_MASK, NODE_INDEX_BITS, NODE_INDEX_BIT_MASK,
    SOLID_BIT, SOLID_BIT_MASK, SURFACE_BIT, SURFACE_BIT_MASK,
};

#[test]
fn constants_fit_together() {
    assert_eq!(MAX_DEPTH, 8);
    assert_eq!(CHUNK_SIDE_LEN, 1 << CHUNK_SIDE_LEN_LOG2);
    assert_eq!(CHUNK_SIDE_MASK, (CHUNK_SIDE_LEN - 1) as u32);
    assert_eq!(CHUNK_LEN, 16 * 16 * 16);
    assert_eq!(NODE_BIT_MASK, 1 << NODE_BIT);
    assert_eq!(NODE_INDEX_BIT_MASK, (1 << NODE_INDEX_BITS) - 1);
    assert_eq!(SURFACE_BIT_MASK, 1 << SURFACE_BIT);
    assert_eq!(SOLID_BIT_MASK, 1 << SOLID_BIT);
    assert_eq!(BOX_SPEC_BIT_MASK, 0x1fff);
}

#[test]
fn void_is_all_zero() {
    let v = Child::void();
    assert_eq!(v.value, 0);
    assert!(v.is_void());
    assert!(!v.is_node());
    assert!(!v.is_surface());
    assert!(!v.is_solid());
    assert_eq!(v.box_spec(), 0);
    assert!(Leaf::void().is_void());
}

#[test]
fn node_from_index_sets_tag_and_masks_index() {
    let n = Child::node_from_index(5);
    assert_eq!(n.value, 0x8005);
    assert!(n.is_node());
    assert_eq!(n.node_index(), 5);
    let m = Child::node_from_index(0xffff);
    assert_eq!(m.value, 0xffff);
    assert_eq!(m.node_index(), 0x7fff);
    let z = Child::node_from_index(0x8000);
    assert_eq!(z.value, 0x8000);
    assert_eq!(z.node_index(), 0);
}

#[test]
fn leaf_from_flags_packs_fields() {
    let l = Child::leaf_from_surface_solid_box_spec(true, true, 5);
    assert_eq!(l.value, 0x4000 | 0x2000 | 5);
    assert!(!l.is_node());
    assert!(l.is_surface());
    assert!(l.is_solid());
    assert_eq!(l.box_spec(), 5);
    assert_eq!(l.ext_spec(), 0x2005);
    let t = Child::leaf_from_surface_solid_box_spec(false, false, 0xffff);
    assert_eq!(t.value, 0x1fff);
    assert!(!t.is_solid());
    assert!(!t.is_surface());
    assert!(!t.is_void());
}

#[test]
fn leaf_from_ext_spec_masks_to_14_bits() {
    let l = Child::leaf_from_surface_ext_spec(false, 0xffff);
    assert_eq!(l.value, 0x3fff);
    assert!(l.is_solid());
    assert!(!l.is_surface());
    let s = Child::leaf_from_surface_ext_spec(true, 0x2001);
    assert_eq!(s.value, 0x6001);
    assert_eq!(s.ext_spec(), 0x2001);
}

#[test]
fn flag_setters_touch_one_bit() {
    let mut c = Child::new(0x2005);
    c.set_surface(true);
    assert_eq!(c.value, 0x6005);
    c.set_surface(true);
    assert_eq!(c.value, 0x6005);
    c.set_solid(false);
    assert_eq!(c.value, 0x4005);
    c.set_surface(false);
    assert_eq!(c.value, 0x0005);
    c.set_node(true);
    assert_eq!(c.value, 0x8005);
    c.set_node(false);
    assert_eq!(c.value, 0x0005);
    c.set_solid(true);
    assert_eq!(c.value, 0x2005);
}

#[test]
fn field_setters_mask_their_input() {
    let mut c = Child::new(0x6005);
    c.set_box_spec(0xffff);
    assert_eq!(c.value, 0x7fff);
    c.set_box_spec(0x2001);
    assert_eq!(c.value, 0x6001);
    c.set_ext_spec(0xc123);
    assert_eq!(c.value, 0x4123);
    c.set_node_index(0x8042);
    assert_eq!(c.value, 0x0042);
    let mut n = Child::node_from_index(7);
    n.set_node_index(0xffff);
    assert_eq!(n.value, 0xffff);
    n.set_node_index(9);
    assert_eq!(n.value, 0x8009);
    assert_eq!(n.node_index(), 9);
}

#[test]
fn unmasked_setters_or_the_high_bits_in() {
    let mut c = Child::new(0x0005);
    c.set_box_spec_unmasked(0x2001);
    assert_eq!(c.value, 0x2001);
    let mut d = Child::new(0x4005);
    d.set_box_spec_unmasked(7);
    assert_eq!(d.value, 0x4007);
    let mut e = Child::new(0x4005);
    e.set_ext_spec_unmasked(0x8001);
    assert_eq!(e.value, 0xc001);
    let mut f = Child::new(0x8005);
    f.set_node_index_unmasked(0x0009);
    assert_eq!(f.value, 0x8009);
    let mut g = Child::new(0x0005);
    g.set_node_index_unmasked(0x8009);
    assert_eq!(g.value, 0x8009);
}

#[test]
fn leaf_constructors_clear_the_surface_flag() {
    let l = Leaf::from_solid_box_spec(true, 5);
    assert_eq!(l.as_child().value, 0x2005);
    assert!(l.is_solid());
    assert!(!l.is_surface());
    assert_eq!(l.box_spec(), 5);
    let m = Leaf::from_solid_box_spec(false, 0x2005);
    assert_eq!(m.as_child().value, 0x0005);
    let e = Leaf::from_ext_spec(0xffff);
    assert_eq!(e.as_child().value, 0x3fff);
    assert_eq!(Leaf::void().as_child().value, 0);
    let n = Leaf::new(Child::new(0x6007));
    assert_eq!(n.as_child().value, 0x6007);
}

#[test]
fn leaf_setters_keep_the_other_fields() {
    let mut l = Leaf::from_solid_box_spec(true, 5);
    l.set_box_spec(0xffff);
    assert_eq!(l.as_child().value, 0x3fff);
    l.set_solid(false);
    assert_eq!(l.as_child().value, 0x1fff);
    l.set_ext_spec(0x6003);
    assert_eq!(l.as_child().value, 0x2003);
}

#[test]
fn hidden_leaf_is_solid_and_off_the_surface() {
    let mut h = HiddenLeaf::from_box_spec(0x2007);
    assert_eq!(h.as_child().value, 0x2007);
    assert!(h.is_solid());
    assert!(!h.is_surface());
    h.set_box_spec(0xffff);
    assert_eq!(h.as_child().value, 0x3fff);
    let n = HiddenLeaf::new(Child::new(0x2001));
    assert_eq!(n.as_child().value, 0x2001);
}

#[test]
fn slot_reads_as_its_number() {
    let mut c = Child::new(0x2005);
    assert_eq!(*c, 0x2005);
    *c = 0x8001;
    assert_eq!(c.value, 0x8001);
    assert!(c.is_node());
}

#[test]
fn leaf_views_of_a_slot_keep_the_bits() {
    let c = Child::new(0x6005);
    assert_eq!(c.as_leaf().as_child().value, 0x6005);
    assert_eq!(c.as_hidden().as_child().value, 0x6005);
    assert!(c.as_leaf().is_surface());
    assert_eq!(Child::void().as_leaf().as_child().value, 0);
}
