//! What holds of every tree: laws that relate lookups, insertions and the
//! bookkeeping of the arena.

use crate::chunk::{boxes, Compression};
use crate::coords::{fork, lemma_cell_wrap, lemma_fork, pow16, slot_of, Pos};
use crate::edit::same_box;
use crate::leaf::Leaf;
use crate::tree::Tree;
use vstd::prelude::*;

verus! {

/// The world wraps around: positions that differ along each axis by a
/// multiple of the width of the world hold the same leaf, found at the same
/// level.
pub proof fn law_wraparound<C: Compression>(
    tree: &Tree<C>,
    x: int,
    y: int,
    z: int,
    i: int,
    j: int,
    k: int,
)
    requires
        tree.wf(),
    ensures
        tree.at(
            x + i * pow16(tree.spec_depth()),
            y + j * pow16(tree.spec_depth()),
            z + k * pow16(tree.spec_depth()),
        ) == tree.at(x, y, z),
        tree.leaf_level(
            x + i * pow16(tree.spec_depth()),
            y + j * pow16(tree.spec_depth()),
            z + k * pow16(tree.spec_depth()),
        ) == tree.leaf_level(x, y, z),
{
    let d = tree.spec_depth();
    lemma_cell_wrap(x, i, 0, d);
    lemma_cell_wrap(y, j, 0, d);
    lemma_cell_wrap(z, k, 0, d);
    tree.lemma_probe_wrap(x + i * pow16(d), y + j * pow16(d), z + k * pow16(d), x, y, z);
}

/// Positions that name the same box hold the same leaf.
pub proof fn law_same_box<C: Compression>(
    tree: &Tree<C>,
    a: int,
    b: int,
    e: int,
    x: int,
    y: int,
    z: int,
)
    requires
        tree.wf(),
        same_box(a, b, e, x, y, z, tree.spec_depth()),
    ensures
        tree.at(a, b, e) == tree.at(x, y, z),
        tree.leaf_level(a, b, e) == tree.leaf_level(x, y, z),
{
    tree.lemma_probe_wrap(a, b, e, x, y, z);
}

/// What a lookup finds is a leaf: void, or a solid box. A leaf that stands
/// for a cell above the bottom is void. The level of a leaf is one of the
/// tree's.
pub proof fn law_leaves<C: Compression>(tree: &Tree<C>, x: int, y: int, z: int)
    requires
        tree.wf(),
    ensures
        !tree.at(x, y, z).is_node(),
        tree.at(x, y, z).is_void() || tree.at(x, y, z).is_solid(),
        0 <= tree.leaf_level(x, y, z) < tree.spec_depth(),
        tree.leaf_level(x, y, z) > 0 ==> tree.at(x, y, z).is_void(),
        2 <= tree.spec_depth() <= 8,
{
    tree.lemma_probe_lands(x, y, z);
}

/// Round trip: where a box was placed, a lookup finds a leaf with the solid
/// flag and the box specifier of the leaf that was put in, and with the
/// surface flag that the neighbours of the box ask for.
pub proof fn law_round_trip<C: Compression>(pre: &Tree<C>, post: &Tree<C>, pos: Pos, leaf: Leaf)
    requires
        Tree::placed(pre, post, pos, leaf),
    ensures
        !post.at(pos.x as int, pos.y as int, pos.z as int).is_node(),
        post.at(pos.x as int, pos.y as int, pos.z as int).is_solid() == leaf@.is_solid(),
        post.at(pos.x as int, pos.y as int, pos.z as int).box_spec() == leaf@.box_spec(),
        !leaf@.is_void() && leaf@.is_solid() ==> post.at(
            pos.x as int,
            pos.y as int,
            pos.z as int,
        ).is_surface() == post.exposed(pos.x as int, pos.y as int, pos.z as int),
{
    let (x, y, z) = (pos.x as int, pos.y as int, pos.z as int);
    let found = post.at(x, y, z);
    assert(found.ext_spec() == leaf@.ext_spec());
    assert(post.surface_rule(x, y, z));
    crate::child::lemma_pack_fields(found.value);
    crate::child::lemma_pack_fields(leaf@.value);
}

/// A box that was placed changes no other box: every other leaf keeps its
/// solid flag and its box specifier.
pub proof fn law_placed_elsewhere<C: Compression>(
    pre: &Tree<C>,
    post: &Tree<C>,
    pos: Pos,
    leaf: Leaf,
    a: int,
    b: int,
    e: int,
)
    requires
        Tree::placed(pre, post, pos, leaf),
        !same_box(a, b, e, pos.x as int, pos.y as int, pos.z as int, pre.spec_depth()),
    ensures
        post.at(a, b, e).ext_spec() == pre.at(a, b, e).ext_spec(),
        post.at(a, b, e).is_solid() == pre.at(a, b, e).is_solid(),
        post.at(a, b, e).box_spec() == pre.at(a, b, e).box_spec(),
{
    assert(post.at(a, b, e).ext_spec() == pre.at(a, b, e).ext_spec());
    crate::child::lemma_pack_fields(post.at(a, b, e).value);
    crate::child::lemma_pack_fields(pre.at(a, b, e).value);
}

/// Capacity: of the nodes of the arena the root is always in use, so at most
/// one less than the capacity are on the free list, and at most that many
/// chunks can ever be taken from it. The lookup of a position lacks as many
/// chunks as its leaf lies above the bottom.
pub proof fn law_capacity<C: Compression>(tree: &Tree<C>, x: int, y: int, z: int)
    requires
        tree.wf(),
    ensures
        0 <= tree.spec_num_free_nodes() <= tree.capacity() - 1,
        2 <= tree.spec_depth() <= tree.capacity() <= 32767,
        0 <= tree.leaf_level(x, y, z) <= tree.spec_depth() - 1,
        tree.spec_first_free_node() == (if tree.spec_num_free_nodes() == 0 {
            0
        } else {
            tree.capacity() - tree.spec_num_free_nodes()
        }),
{
    tree.lemma_probe_lands(x, y, z);
}

/// An insertion that found the free list empty on its way changed no box.
pub proof fn law_exhausted<C: Compression>(
    pre: &Tree<C>,
    post: &Tree<C>,
    pos: Pos,
    a: int,
    b: int,
    e: int,
)
    requires
        Tree::exhausted(pre, post, pos),
    ensures
        post.at(a, b, e) == pre.at(a, b, e),
        post.spec_num_free_nodes() == 0,
{
}

/// After a box was placed the way to it is built out to the bottom: the box
/// itself can be replaced, and a box beside it in its chunk placed, without
/// another chunk.
pub proof fn law_placed_path<C: Compression>(
    pre: &Tree<C>,
    post: &Tree<C>,
    pos: Pos,
    leaf: Leaf,
    a: int,
    b: int,
    e: int,
)
    requires
        pre.wf(),
        Tree::placed(pre, post, pos, leaf),
    ensures
        post.leaf_level(pos.x as int, pos.y as int, pos.z as int) == 0,
        post.leaf_level(a, b, e) <= pre.leaf_level(a, b, e),
        post.leaf_level(a, b, e) <= fork(
            a,
            b,
            e,
            pos.x as int,
            pos.y as int,
            pos.z as int,
            pre.spec_depth(),
        ),
{
    let (x, y, z) = (pos.x as int, pos.y as int, pos.z as int);
    let d = pre.spec_depth();
    pre.lemma_probe_lands(x, y, z);
    lemma_fork(x, y, z, x, y, z, d, 1);
    assert(post.leaf_level(x, y, z) == vstd::math::min(
        pre.leaf_level(x, y, z),
        fork(x, y, z, x, y, z, d),
    ));
    assert(post.leaf_level(a, b, e) == vstd::math::min(
        pre.leaf_level(a, b, e),
        fork(a, b, e, x, y, z, d),
    ));
    if fork(x, y, z, x, y, z, d) > 0 {
        let f = fork(x, y, z, x, y, z, d);
        lemma_fork(x, y, z, x, y, z, d, f);
    }
}

/// The surface flag of every box is as the rule asks: set exactly if the
/// box is not void and one of its 26 neighbours is not solid.
pub proof fn law_surface<C: Compression>(tree: &Tree<C>, x: int, y: int, z: int)
    requires
        tree.wf(),
    ensures
        tree.surface_rule(x, y, z),
        tree.at(x, y, z).is_surface() ==> tree.at(x, y, z).is_solid(),
{
    assert(tree.surface_rule(x, y, z));
    tree.lemma_probe_lands(x, y, z);
}

/// A box with a neighbour that is not solid is on the surface, if it is
/// not void.
pub proof fn law_surface_open<C: Compression>(
    tree: &Tree<C>,
    x: int,
    y: int,
    z: int,
    i: int,
    j: int,
    k: int,
)
    requires
        tree.wf(),
        !tree.at(x, y, z).is_void(),
        -1 <= i <= 1,
        -1 <= j <= 1,
        -1 <= k <= 1,
        !(i == 0 && j == 0 && k == 0),
        !tree.at(x + i, y + j, z + k).is_solid(),
    ensures
        tree.at(x, y, z).is_surface(),
{
    assert(tree.surface_rule(x, y, z));
    assert(tree.open_at(x + i, y + j, z + k));
    reveal(Tree::exposed);
}

/// A box all of whose 26 neighbours are solid is off the surface.
pub proof fn law_surface_enclosed<C: Compression>(tree: &Tree<C>, x: int, y: int, z: int)
    requires
        tree.wf(),
        forall|a: int, b: int, e: int|
            x - 1 <= a <= x + 1 && y - 1 <= b <= y + 1 && z - 1 <= e <= z + 1 && !(a == x && b == y
                && e == z) ==> (#[trigger] tree.at(a, b, e)).is_solid(),
    ensures
        !tree.at(x, y, z).is_surface(),
{
    assert(tree.surface_rule(x, y, z));
    reveal(Tree::exposed);
}

/// The counters of a node in use: the counter of void children stands at
/// 4096 plus the number of boxes in the chunk; the other two stand at 0.
pub proof fn law_counters<C: Compression>(tree: &Tree<C>, c: int)
    requires
        tree.wf(),
        0 <= c < tree.capacity() - tree.spec_num_free_nodes(),
    ensures
        tree.infos_view()[c].num_void_children == 4096 + boxes(
            tree.chunks_view()[c].children@,
            4096,
        ),
        tree.infos_view()[c].num_solid_children == 0,
        tree.infos_view()[c].num_surface_children == 0,
        0 <= boxes(tree.chunks_view()[c].children@, 4096) <= 4096,
{
    assert(tree.counted(c));
    crate::chunk::lemma_boxes_same(
        tree.chunks_view()[c].children@,
        tree.chunks_view()[c].children@,
        4096,
    );
}

/// The free list: it runs in ascending order through the nodes that are
/// not in use. Slot 0 of each holds the index of the next, 0 in the last;
/// the rest of the chunk is void and the record fresh.
pub proof fn law_free_list<C: Compression>(tree: &Tree<C>, c: int, s: int)
    requires
        tree.wf(),
        tree.capacity() - tree.spec_num_free_nodes() <= c < tree.capacity(),
        0 <= s < 4096,
    ensures
        tree.chunks_view()[c].children@[s].value == (if s == 0 && c + 1 < tree.capacity() {
            c + 1
        } else {
            0
        }),
        tree.infos_view()[c] == crate::chunk::Info::spec_fresh(),
{
    assert(tree.free_chunk_ok(c));
    assert(tree.slot(c, s) == tree.chunks_view()[c].children@[s]);
}

/// The way from the root down to a leaf: it starts in chunk 0; at each level
/// down to that of the leaf it passes through a chunk in use, which hangs in
/// the slot of the chunk above that the position reads and names that chunk
/// as its parent; and the slot that the position reads in the last chunk
/// holds the leaf.
pub proof fn law_way<C: Compression>(tree: &Tree<C>, x: int, y: int, z: int, l: int)
    requires
        tree.wf(),
        tree.leaf_level(x, y, z) <= l < tree.spec_depth(),
    ensures
        tree.way(x, y, z, tree.spec_depth() - 1) == 0,
        0 <= tree.way(x, y, z, l) < tree.capacity() - tree.spec_num_free_nodes(),
        l + 1 < tree.spec_depth() ==> {
            &&& tree.slot(tree.way(x, y, z, l + 1), slot_of(x, y, z, l + 1)).value == 0x8000
                + tree.way(x, y, z, l)
            &&& tree.infos_view()[tree.way(x, y, z, l)].parent_index == tree.way(x, y, z, l + 1)
            &&& tree.way(x, y, z, l + 1) < tree.way(x, y, z, l)
        },
        tree.slot(
            tree.way(x, y, z, tree.leaf_level(x, y, z)),
            slot_of(x, y, z, tree.leaf_level(x, y, z)),
        ) == tree.at(x, y, z),
        0 <= slot_of(x, y, z, l) < 4096,
{
    tree.lemma_root_holds(x, y, z);
    tree.lemma_probe_lands(x, y, z);
    tree.lemma_way_from(0, x, y, z, l);
    tree.lemma_way_from(0, x, y, z, tree.leaf_level(x, y, z));
    tree.lemma_way_ends(0, x, y, z, tree.leaf_level(x, y, z));
    crate::coords::lemma_nib_bound(x, l);
    crate::coords::lemma_nib_bound(y, l);
    crate::coords::lemma_nib_bound(z, l);
}

/// Every chunk in use lies on a way: there is a position whose way passes
/// through the chunk, at a level at or above that of the position's leaf.
pub proof fn law_in_use<C: Compression>(tree: &Tree<C>, c: int) -> (at: (int, int, int, int))
    requires
        tree.wf(),
        0 <= c < tree.capacity() - tree.spec_num_free_nodes(),
    ensures
        tree.leaf_level(at.0, at.1, at.2) <= at.3 < tree.spec_depth(),
        tree.way(at.0, at.1, at.2, at.3) == c,
{
    let d = tree.spec_depth();
    let p = tree.places_@[c];
    let n = pow16(p.level + 1);
    let (x, y, z) = (p.x * n, p.y * n, p.z * n);
    assert(tree.place_ok(c));
    crate::coords::lemma_pow16_pos(p.level + 1);
    crate::coords::lemma_pow16_add(d - 1 - p.level, p.level + 1);
    lemma_corner(p.x, n, pow16(d - 1 - p.level));
    lemma_corner(p.y, n, pow16(d - 1 - p.level));
    lemma_corner(p.z, n, pow16(d - 1 - p.level));
    crate::coords::lemma_cell_inside(x, p.level + 1, d);
    crate::coords::lemma_cell_inside(y, p.level + 1, d);
    crate::coords::lemma_cell_inside(z, p.level + 1, d);
    tree.lemma_way_reaches(c, x, y, z);
    (x, y, z, p.level)
}

/// The first box of cell `v` among `m` cells of `n` boxes each lies among
/// the `m * n` boxes, and in cell `v`.
proof fn lemma_corner(v: int, n: int, m: int)
    requires
        0 <= v < m,
        1 <= n,
    ensures
        0 <= v * n < m * n,
        (v * n) / n == v,
{
    assert(0 <= v * n < m * n) by (nonlinear_arith)
        requires
            0 <= v < m,
            1 <= n,
    ;
    vstd::arithmetic::div_mod::lemma_div_multiples_vanish(v, n);
}

/// A column that was raised stands: each of its boxes that was placed holds
/// the solid flag and the box specifier of the column's leaf.
pub proof fn law_raised<C: Compression>(
    pre: &Tree<C>,
    post: &Tree<C>,
    x: u32,
    z: u32,
    leaf: Leaf,
    k: int,
    h: int,
)
    requires
        Tree::raised(pre, post, x, z, leaf, k),
        0 <= h < k,
    ensures
        post.at(x as int, h as u32 as int, z as int).ext_spec() == leaf@.ext_spec(),
    decreases k,
{
    let mid = choose|mid: Tree<C>|
        Tree::raised(pre, &mid, x, z, leaf, k - 1) && #[trigger] Tree::placed(
            &mid,
            post,
            crate::terrain::column_pos(x, z, k - 1),
            leaf,
        );
    let found = post.at(x as int, h as u32 as int, z as int);
    assert(!found.is_node());
    if h < k - 1 {
        law_raised(pre, &mid, x, z, leaf, k - 1, h);
    }
}

} // verus!
