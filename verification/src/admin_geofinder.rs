//! The spatial index over the boundaries of the regions of a store.
//!
//! The index is a region quadtree over the extents of the boundaries. A node
//! stands for a rectangle of the grid, the root for the whole grid, and the
//! children of a node for its four quadrants. A region is listed at the
//! deepest node whose rectangle encloses the extent of its boundary. A point
//! query walks from the root towards the point, tests the listed extents on
//! the way, and runs the exact polygon test on the regions whose extent holds
//! the point.

use crate::admin::{admin_views, Admin, AdminStore, AdminView};
use crate::boundary::{
    has_no_outer_vertex, is_extent, lemma_no_vertex_no_extent, lemma_within_extent, outer_vertex,
};
use crate::coord::{BoundingBox, Coord};
use vstd::prelude::*;

verus! {

/// The depth below which the tree does not grow.
pub const MAX_DEPTH: u32 = 16;

/// The link that leads nowhere.
const NONE: usize = usize::MAX;

/// The handle or node that a link leads to, `-1` for none.
spec fn lower(link: usize) -> int {
    if link == NONE {
        -1
    } else {
        link as int
    }
}

/// What the index keeps of one region of the store.
#[derive(Clone, Copy)]
struct Entry {
    /// Whether the region has a boundary with an extent.
    indexed: bool,
    /// The extent of the boundary.
    extent: BoundingBox,
    /// The node that lists the region.
    node: usize,
    /// The next region in the list of that node.
    next: usize,
}

/// A node of the quadtree.
#[derive(Clone, Copy)]
struct QuadNode {
    /// The rectangle that the node stands for.
    region: BoundingBox,
    /// The number of steps from the root.
    depth: u32,
    /// The node above, and the number of the quadrant that this node is of it.
    parent: usize,
    slot: u8,
    /// The nodes of the four quadrants.
    south_west: usize,
    south_east: usize,
    north_west: usize,
    north_east: usize,
    /// The first region in the list of the node.
    first: usize,
}

impl QuadNode {
    /// The link to the node of the quadrant `slot`.
    spec fn child(self, slot: int) -> usize {
        if slot == 0 {
            self.south_west
        } else if slot == 1 {
            self.south_east
        } else if slot == 2 {
            self.north_west
        } else {
            self.north_east
        }
    }

    /// The link to the node of the quadrant `slot`.
    fn child_at(&self, slot: u8) -> (c: usize)
        ensures
            c == self.child(slot as int),
    {
        if slot == 0 {
            self.south_west
        } else if slot == 1 {
            self.south_east
        } else if slot == 2 {
            self.north_west
        } else {
            self.north_east
        }
    }

    /// The node with the link to its quadrant `slot` set to `c`.
    fn with_child(self, slot: u8, c: usize) -> (node: QuadNode)
        requires
            slot < 4,
        ensures
            node.child(slot as int) == c,
            forall|s: int| 0 <= s < 4 && s != slot ==> node.child(s) == self.child(s),
            node.region == self.region,
            node.depth == self.depth,
            node.parent == self.parent,
            node.slot == self.slot,
            node.first == self.first,
    {
        let mut node = self;
        if slot == 0 {
            node.south_west = c;
        } else if slot == 1 {
            node.south_east = c;
        } else if slot == 2 {
            node.north_west = c;
        } else {
            node.north_east = c;
        }
        node
    }
}

/// `handles` names the regions of `admins` whose boundary has `p` in its
/// bounding box: all of them, each once, and no other.
pub open spec fn is_candidate_list(admins: Seq<AdminView>, handles: Seq<usize>, p: Coord) -> bool {
    &&& handles.no_duplicates()
    &&& forall|i: int|
        0 <= i < handles.len() ==> (#[trigger] handles[i]) < admins.len()
            && admins[handles[i] as int].within_extent(p)
    &&& forall|h: usize|
        h < admins.len() && (#[trigger] admins[h as int]).within_extent(p) ==> handles.contains(h)
}

/// `handles` names the regions of `admins` that have `p` inside their
/// boundary: all of them, each once, and no other.
pub open spec fn is_hit_list(admins: Seq<AdminView>, handles: Seq<usize>, p: Coord) -> bool {
    &&& handles.no_duplicates()
    &&& forall|i: int|
        0 <= i < handles.len() ==> (#[trigger] handles[i]) < admins.len()
            && admins[handles[i] as int].covers(p)
    &&& forall|h: usize|
        h < admins.len() && (#[trigger] admins[h as int]).covers(p) ==> handles.contains(h)
}

/// Some region of `admins` can be found by position.
pub open spec fn is_searchable(admins: Seq<AdminView>) -> bool {
    exists|h: int| 0 <= h < admins.len() && (#[trigger] admins[h]).has_extent()
}

/// Why an index is not built.
#[derive(Clone, Copy, Debug, PartialEq, Eq, Structural)]
pub enum IndexError {
    /// No region has a boundary to search.
    NoBoundary,
}

/// The store, what the index keeps of each of its regions, and the nodes of
/// the tree. The tree gets its root with the first region that it lists.
struct QuadIndex {
    store: AdminStore,
    entries: Vec<Entry>,
    nodes: Vec<QuadNode>,
}

impl View for QuadIndex {
    type V = Seq<AdminView>;

    closed spec fn view(&self) -> Seq<AdminView> {
        self.store@
    }
}

impl QuadIndex {
    /// The link of the node `n` to its quadrant `slot` leads nowhere or to a
    /// later node that names `n` as the node above and `slot` as its place.
    spec fn child_ok(&self, n: int, slot: int) -> bool {
        let c = self.nodes[n].child(slot);
        c == NONE || (n < c < self.nodes.len() && self.nodes[c as int].parent == n
            && self.nodes[c as int].slot == slot)
    }

    /// The node `n` is in order: below the root it stands for a quadrant of
    /// the node above, one step deeper; its links to the nodes below are in
    /// order; its list starts with a region of its own.
    spec fn node_ok(&self, n: int) -> bool {
        let node = self.nodes[n];
        &&& node.region.inhabited()
        &&& node.depth <= MAX_DEPTH
        &&& n > 0 ==> {
            let above = self.nodes[node.parent as int];
            &&& node.parent < n
            &&& node.slot < 4
            &&& above.child(node.slot as int) == n
            &&& node.depth == above.depth + 1
            &&& above.region.splittable()
            &&& node.region == above.region.quadrant(node.slot as int)
        }
        &&& self.child_ok(n, 0)
        &&& self.child_ok(n, 1)
        &&& self.child_ok(n, 2)
        &&& self.child_ok(n, 3)
        &&& node.first == NONE || (node.first < self.entries.len()
            && self.entries[node.first as int].indexed && self.entries[node.first as int].node
            == n)
    }

    /// The entry of the region `h` is in order: it is listed exactly when
    /// its boundary has an extent, which the entry then holds; a listed
    /// region sits in the list of a node whose rectangle encloses the
    /// extent, and its link leads to an earlier region of the same node.
    spec fn entry_ok(&self, h: int) -> bool {
        let entry = self.entries[h];
        &&& match self.store@[h].boundary {
            Some(shape) => if entry.indexed {
                is_extent(entry.extent, shape)
            } else {
                has_no_outer_vertex(shape)
            },
            None => !entry.indexed,
        }
        &&& entry.indexed ==> {
            &&& entry.node < self.nodes.len()
            &&& self.nodes[entry.node as int].region.encloses(entry.extent)
            &&& h <= lower(self.nodes[entry.node as int].first)
            &&& entry.next == NONE || (entry.next < h && self.entries[entry.next as int].indexed
                && self.entries[entry.next as int].node == entry.node)
        }
    }

    /// The list of a node leaves no region of the node out: below a listed
    /// region, the next one of the same node is the one its link leads to.
    spec fn lists_complete(&self) -> bool {
        forall|h: int, k: int|
            0 <= k < h < self.entries.len() && (#[trigger] self.entries[h]).indexed && (
            #[trigger] self.entries[k]).indexed && self.entries[k].node == self.entries[h].node
                ==> k <= lower(self.entries[h].next)
    }

    /// The index is in order: it has an entry for each region of the store,
    /// the nodes form a tree of nested quadrants below a root that stands
    /// for the whole grid, and each region with an extent is listed at one
    /// node whose rectangle encloses the extent.
    spec fn wf(&self) -> bool {
        &&& self.entries.len() == self.store@.len()
        &&& self.nodes.len() >= 1 ==> self.nodes[0].region.is_world() && self.nodes[0].depth == 0
        &&& forall|n: int| 0 <= n < self.nodes.len() ==> #[trigger] self.node_ok(n)
        &&& forall|h: int| 0 <= h < self.entries.len() ==> #[trigger] self.entry_ok(h)
        &&& self.lists_complete()
    }

    /// The walk from the root towards `p` passes the node `n`.
    spec fn on_path(&self, n: int, p: Coord) -> bool
        decreases n,
    {
        if n <= 0 {
            n == 0
        } else {
            let node = self.nodes[n];
            if node.parent < n {
                self.nodes[node.parent as int].region.quadrant_of(p) == node.slot && self.on_path(
                    node.parent as int,
                    p,
                )
            } else {
                false
            }
        }
    }

    /// The depth of the node that lists the region `k`.
    spec fn depth_of(&self, k: int) -> int {
        self.nodes[self.entries[k].node as int].depth as int
    }

    /// The extent of the boundary of the region `k` holds `p`.
    spec fn hit(&self, k: int, p: Coord) -> bool {
        0 <= k < self.entries.len() && self.store@[k].within_extent(p)
    }

    /// The extent of the region `k` holds `p`, and the walk towards `p` has
    /// dealt with the region once it has gone through the list of the node
    /// `cur` down to the link `link`.
    spec fn due(&self, k: int, cur: int, link: usize, p: Coord) -> bool {
        self.hit(k, p) && (self.depth_of(k) < self.nodes[cur].depth || (self.entries[k].node == cur
            && k > lower(link)))
    }

    /// The extent of the region `k` holds `p`, and the walk towards `p` has
    /// dealt with the region when it arrives at the node `cur`, or when it
    /// has ended.
    spec fn settled(&self, k: int, cur: int, ended: bool, p: Coord) -> bool {
        self.hit(k, p) && (ended || self.depth_of(k) < self.nodes[cur].depth)
    }

    /// One step through the list of a node keeps the account of the regions
    /// dealt with: the region at `link` joins the handles where its extent
    /// holds `p`, and the walk moves to the next link.
    proof fn lemma_step(
        &self,
        before: Seq<usize>,
        after: Seq<usize>,
        cur: int,
        link: usize,
        inside: bool,
        p: Coord,
    )
        requires
            self.wf(),
            0 <= cur < self.nodes.len(),
            link < self.entries.len(),
            self.entries[link as int].indexed,
            self.entries[link as int].node == cur,
            inside == self.hit(link as int, p),
            after == if inside {
                before.push(link)
            } else {
                before
            },
            before.no_duplicates(),
            !before.contains(link),
            forall|i: int|
                0 <= i < before.len() ==> self.due((#[trigger] before[i]) as int, cur, link, p),
            forall|k: int| #[trigger] self.due(k, cur, link, p) ==> before.contains(k as usize),
        ensures
            after.no_duplicates(),
            forall|i: int|
                0 <= i < after.len() ==> self.due(
                    (#[trigger] after[i]) as int,
                    cur,
                    self.entries[link as int].next,
                    p,
                ),
            forall|k: int| #[trigger]
                self.due(k, cur, self.entries[link as int].next, p) ==> after.contains(k as usize),
    {
        let next = self.entries[link as int].next;
        assert(self.entry_ok(link as int));
        assert forall|k: int| #[trigger] self.due(k, cur, next, p) implies after.contains(
            k as usize,
        ) by {
            if k == link {
                assert(after[before.len() as int] == link);
            } else {
                if self.entries[k].node == cur && k < link {
                    self.lemma_hit_on_path(k, p);
                    assert(self.lists_complete());
                    assert(self.entries[link as int].indexed && self.entries[k].indexed);
                    assert(k <= lower(next));
                }
                assert(self.due(k, cur, link, p));
                let i = choose|i: int| 0 <= i < before.len() && before[i] == k as usize;
                assert(after[i] == k as usize);
            }
        }
        assert forall|i: int| 0 <= i < after.len() implies self.due(
            (#[trigger] after[i]) as int,
            cur,
            next,
            p,
        ) by {
            if i < before.len() {
                assert(self.due(before[i] as int, cur, link, p));
            }
        }
    }

    /// A node whose rectangle holds `p` is on the walk towards `p`.
    proof fn lemma_holds_on_path(&self, n: int, p: Coord)
        requires
            self.wf(),
            0 <= n < self.nodes.len(),
            self.nodes[n].region.holds(p),
        ensures
            self.on_path(n, p),
        decreases n,
    {
        if n > 0 {
            assert(self.node_ok(n));
            let node = self.nodes[n];
            let above = self.nodes[node.parent as int];
            above.region.lemma_quadrants(node.slot as int, p);
            self.lemma_holds_on_path(node.parent as int, p);
        }
    }

    /// The walk towards `p` passes one node of each depth at most.
    proof fn lemma_path_unique(&self, a: int, b: int, p: Coord)
        requires
            self.wf(),
            0 <= a < self.nodes.len(),
            0 <= b < self.nodes.len(),
            self.on_path(a, p),
            self.on_path(b, p),
            self.nodes[a].depth == self.nodes[b].depth,
        ensures
            a == b,
        decreases a,
    {
        assert(self.node_ok(a));
        assert(self.node_ok(b));
        if a > 0 && b > 0 {
            self.lemma_path_unique(self.nodes[a].parent as int, self.nodes[b].parent as int, p);
        }
    }

    /// Where the walk towards `p` passes `cur` and a deeper node, it goes on
    /// below `cur`.
    proof fn lemma_path_continues(&self, cur: int, n: int, p: Coord)
        requires
            self.wf(),
            0 <= cur < self.nodes.len(),
            0 <= n < self.nodes.len(),
            self.on_path(cur, p),
            self.on_path(n, p),
            self.nodes[n].depth > self.nodes[cur].depth,
        ensures
            self.nodes[cur].region.splittable(),
            self.nodes[cur].child(self.nodes[cur].region.quadrant_of(p)) != NONE,
        decreases n,
    {
        assert(self.node_ok(n));
        let up = self.nodes[n].parent as int;
        assert(self.node_ok(up));
        if self.nodes[up].depth == self.nodes[cur].depth {
            self.lemma_path_unique(up, cur, p);
        } else {
            self.lemma_path_continues(cur, up, p);
        }
    }

    /// A region whose extent holds `p` is listed, and the walk towards `p`
    /// passes the node that lists it.
    proof fn lemma_hit_on_path(&self, k: int, p: Coord)
        requires
            self.wf(),
            self.hit(k, p),
        ensures
            self.entries[k].indexed,
            self.entries[k].extent.holds(p),
            self.entries[k].node < self.nodes.len(),
            self.on_path(self.entries[k].node as int, p),
    {
        assert(self.entry_ok(k));
        let shape = self.store@[k].boundary->0;
        if self.entries[k].indexed {
            lemma_within_extent(self.entries[k].extent, shape, p);
            self.lemma_holds_on_path(self.entries[k].node as int, p);
        } else {
            lemma_no_vertex_no_extent(shape, p);
        }
    }

    /// An index over no regions, with a tree yet to be planted.
    fn new() -> (index: QuadIndex)
        ensures
            index.wf(),
            index@ == Seq::<AdminView>::empty(),
    {
        QuadIndex { store: AdminStore::new(), entries: Vec::new(), nodes: Vec::new() }
    }

    /// Gives the tree its root, which stands for the whole grid.
    fn plant(&mut self)
        requires
            old(self).wf(),
            old(self).nodes.len() == 0,
        ensures
            final(self).wf(),
            final(self).store == old(self).store,
            final(self).entries == old(self).entries,
            final(self).nodes.len() == 1,
            final(self).nodes[0].first == NONE,
    {
        let ghost before = *self;
        self.nodes.push(
            QuadNode {
                region: BoundingBox::world(),
                depth: 0,
                parent: 0,
                slot: 0,
                south_west: NONE,
                south_east: NONE,
                north_west: NONE,
                north_east: NONE,
                first: NONE,
            },
        );
        proof {
            assert(self.node_ok(0));
            assert forall|h: int| 0 <= h < self.entries.len() implies #[trigger] self.entry_ok(
                h,
            ) by {
                assert(before.entry_ok(h));
            }
            assert(self.lists_complete()) by {
                assert(before.lists_complete());
            }
        }
    }

    /// Gives the node `cur` a child for its quadrant `slot`.
    fn grow(&mut self, cur: usize, slot: u8) -> (fresh: usize)
        requires
            old(self).wf(),
            cur < old(self).nodes.len(),
            slot < 4,
            old(self).nodes[cur as int].region.splittable(),
            old(self).nodes[cur as int].depth < MAX_DEPTH,
            old(self).nodes[cur as int].child(slot as int) == NONE,
            old(self).nodes.len() < NONE - 1,
        ensures
            final(self).wf(),
            final(self).store == old(self).store,
            final(self).entries == old(self).entries,
            fresh == old(self).nodes.len(),
            final(self).nodes.len() == old(self).nodes.len() + 1,
            final(self).nodes[fresh as int].region == old(self).nodes[cur as int].region.quadrant(
                slot as int,
            ),
            final(self).nodes[fresh as int].depth == old(self).nodes[cur as int].depth + 1,
            final(self).nodes[fresh as int].first == NONE,
            forall|n: int|
                0 <= n < old(self).nodes.len() ==> (#[trigger] final(self).nodes[n]).first == old(
                    self,
                ).nodes[n].first,
    {
        let here = self.nodes[cur];
        let fresh = self.nodes.len();
        let ghost before = *self;
        assert(before.node_ok(cur as int));
        proof {
            here.region.lemma_quadrants(slot as int, Coord { lon: 0, lat: 0 });
        }
        let node = QuadNode {
            region: here.region.quadrant_box(slot),
            depth: here.depth + 1,
            parent: cur,
            slot: slot,
            south_west: NONE,
            south_east: NONE,
            north_west: NONE,
            north_east: NONE,
            first: NONE,
        };
        self.nodes.push(node);
        self.nodes.set(cur, here.with_child(slot, fresh));
        proof {
            assert forall|n: int| 0 <= n < self.nodes.len() implies #[trigger] self.node_ok(n) by {
                if n < before.nodes.len() {
                    assert(before.node_ok(n));
                    assert(before.child_ok(n, 0));
                    assert(before.child_ok(n, 1));
                    assert(before.child_ok(n, 2));
                    assert(before.child_ok(n, 3));
                    assert(self.child_ok(n, 0));
                    assert(self.child_ok(n, 1));
                    assert(self.child_ok(n, 2));
                    assert(self.child_ok(n, 3));
                    if n > 0 {
                        let up = before.nodes[n].parent as int;
                        assert(before.node_ok(up));
                    }
                } else {
                    assert(self.child_ok(n, 0));
                    assert(self.child_ok(n, 1));
                    assert(self.child_ok(n, 2));
                    assert(self.child_ok(n, 3));
                }
            }
            assert forall|h: int| 0 <= h < self.entries.len() implies #[trigger] self.entry_ok(
                h,
            ) by {
                assert(before.entry_ok(h));
            }
            assert(self.lists_complete()) by {
                assert(before.lists_complete());
            }
        }
        fresh
    }

    /// Finds the deepest node whose rectangle encloses `extent`, growing the
    /// tree towards it as far as the depth limit allows.
    fn locate(&mut self, extent: BoundingBox) -> (node: usize)
        requires
            old(self).wf(),
            extent.inhabited(),
        ensures
            final(self).wf(),
            final(self).store == old(self).store,
            final(self).entries == old(self).entries,
            node < final(self).nodes.len(),
            final(self).nodes[node as int].region.encloses(extent),
            final(self).nodes.len() >= old(self).nodes.len(),
            forall|n: int|
                0 <= n < old(self).nodes.len() ==> (#[trigger] final(self).nodes[n]).first == old(
                    self,
                ).nodes[n].first,
            forall|n: int|
                old(self).nodes.len() <= n < final(self).nodes.len() ==> (
                #[trigger] final(self).nodes[n]).first == NONE,
    {
        let south_west = Coord { lon: extent.min_lon, lat: extent.min_lat };
        let north_east = Coord { lon: extent.max_lon, lat: extent.max_lat };
        if self.nodes.len() == 0 {
            self.plant();
        }
        let mut cur: usize = 0;
        let mut done = false;
        assert(self.node_ok(0));
        while !done
            invariant
                self.wf(),
                self.store == old(self).store,
                self.entries == old(self).entries,
                extent.inhabited(),
                south_west == (Coord { lon: extent.min_lon, lat: extent.min_lat }),
                north_east == (Coord { lon: extent.max_lon, lat: extent.max_lat }),
                cur < self.nodes.len(),
                self.nodes[cur as int].depth <= MAX_DEPTH,
                self.nodes[cur as int].region.encloses(extent),
                self.nodes.len() >= old(self).nodes.len(),
                forall|n: int|
                    0 <= n < old(self).nodes.len() ==> (#[trigger] self.nodes[n]).first == old(
                        self,
                    ).nodes[n].first,
                forall|n: int|
                    old(self).nodes.len() <= n < self.nodes.len() ==> (
                    #[trigger] self.nodes[n]).first == NONE,
            decreases
                    MAX_DEPTH - self.nodes[cur as int].depth + (if done {
                        0int
                    } else {
                        1int
                    }),
        {
            let here = self.nodes[cur];
            assert(self.node_ok(cur as int));
            let slot = here.region.quadrant_index(south_west);
            if here.depth < MAX_DEPTH && here.region.can_split() && here.region.quadrant_index(
                north_east,
            ) == slot {
                proof {
                    here.region.lemma_quadrants(slot as int, south_west);
                    here.region.lemma_quadrants(slot as int, north_east);
                }
                let below = here.child_at(slot);
                if below != NONE {
                    assert(self.child_ok(cur as int, slot as int));
                    assert(self.node_ok(below as int));
                    cur = below;
                } else if self.nodes.len() < NONE - 1 {
                    cur = self.grow(cur, slot);
                } else {
                    done = true;
                }
            } else {
                done = true;
            }
        }
        cur
    }

    /// Adds a region to the store and, where it has a boundary with an
    /// extent, to the tree.
    fn add_admin(&mut self, admin: Admin)
        requires
            old(self).wf(),
        ensures
            final(self).wf(),
            final(self)@ == old(self)@.push(admin@),
    {
        let extent = match &admin.boundary {
            Some(boundary) => boundary.bounding_box(),
            None => None,
        };
        match extent {
            None => {
                let ghost before = *self;
                self.store.insert(admin);
                self.entries.push(
                    Entry { indexed: false, extent: BoundingBox::world(), node: 0, next: NONE },
                );
                proof {
                    let added = before.entries.len() as int;
                    assert forall|n: int| 0 <= n < self.nodes.len() implies #[trigger] self.node_ok(
                        n,
                    ) by {
                        assert(before.node_ok(n));
                        assert(before.child_ok(n, 0));
                        assert(before.child_ok(n, 1));
                        assert(before.child_ok(n, 2));
                        assert(before.child_ok(n, 3));
                    }
                    assert forall|h: int| 0 <= h < self.entries.len() implies #[trigger] self.entry_ok(
                        h,
                    ) by {
                        if h < added {
                            assert(before.entry_ok(h));
                        }
                    }
                    assert(self.lists_complete()) by {
                        assert(before.lists_complete());
                    }
                }
            },
            Some(extent) => {
                let node = self.locate(extent);
                let ghost before = *self;
                let handle = self.store.insert(admin);
                let here = self.nodes[node];
                assert(before.node_ok(node as int));
                self.entries.push(
                    Entry { indexed: true, extent: extent, node: node, next: here.first },
                );
                let mut listed = here;
                listed.first = handle;
                self.nodes.set(node, listed);
                proof {
                    let added = before.entries.len() as int;
                    assert(handle == added);
                    assert forall|n: int| 0 <= n < self.nodes.len() implies #[trigger] self.node_ok(
                        n,
                    ) by {
                        assert(before.node_ok(n));
                        assert(before.child_ok(n, 0));
                        assert(before.child_ok(n, 1));
                        assert(before.child_ok(n, 2));
                        assert(before.child_ok(n, 3));
                        assert(self.nodes[n].child(0) == before.nodes[n].child(0));
                        assert(self.nodes[n].child(1) == before.nodes[n].child(1));
                        assert(self.nodes[n].child(2) == before.nodes[n].child(2));
                        assert(self.nodes[n].child(3) == before.nodes[n].child(3));
                    }
                    assert forall|h: int| 0 <= h < self.entries.len() implies #[trigger] self.entry_ok(
                        h,
                    ) by {
                        if h < added {
                            assert(before.entry_ok(h));
                        }
                    }
                    assert(self.lists_complete()) by {
                        assert(before.lists_complete());
                        assert forall|h: int, k: int|
                            0 <= k < h < self.entries.len() && (#[trigger] self.entries[h]).indexed
                                && (#[trigger] self.entries[k]).indexed && self.entries[k].node
                                == self.entries[h].node implies k <= lower(
                            self.entries[h].next,
                        ) by {
                            if h == added {
                                assert(before.entry_ok(k));
                            }
                        }
                    }
                }
            },
        }
    }

    /// Whether any region is listed in the tree.
    fn has_boundaries(&self) -> (r: bool)
        requires
            self.wf(),
        ensures
            r == is_searchable(self@),
    {
        let mut h: usize = 0;
        while h < self.entries.len()
            invariant
                self.wf(),
                h <= self.entries.len(),
                forall|k: int| 0 <= k < h ==> !(#[trigger] self@[k]).has_extent(),
            decreases self.entries.len() - h,
        {
            assert(self.entry_ok(h as int));
            if self.entries[h].indexed {
                proof {
                    let shape = self@[h as int].boundary->0;
                    let (i, j, v) = choose|i: int, j: int, v: Coord| #[trigger]
                        outer_vertex(shape, i, j, v) && v.lon == self.entries[h as int].extent.min_lon;
                    assert(shape[i].exterior.len() > 0);
                    assert(self@[h as int].has_extent());
                }
                return true;
            }
            h += 1;
        }
        false
    }

    /// Walks from the root towards `p` and collects, from the list of each
    /// node on the way, the regions whose extent holds `p`.
    fn candidates_for_coord(&self, p: Coord) -> (handles: Vec<usize>)
        requires
            self.wf(),
        ensures
            is_candidate_list(self@, handles@, p),
    {
        let mut handles: Vec<usize> = Vec::new();
        if self.nodes.len() == 0 {
            proof {
                assert forall|h: usize|
                    h < self@.len() && (#[trigger] self@[h as int]).within_extent(
                        p,
                    ) implies handles@.contains(h) by {
                    assert(self.entry_ok(h as int));
                    if !self.entries[h as int].indexed {
                        lemma_no_vertex_no_extent(self@[h as int].boundary->0, p);
                    }
                }
            }
            return handles;
        }
        let mut cur: usize = 0;
        let mut done = false;
        assert(self.node_ok(0));
        while !done
            invariant
                self.wf(),
                cur < self.nodes.len(),
                self.on_path(cur as int, p),
                self.nodes[cur as int].region.holds(p),
                handles@.no_duplicates(),
                forall|i: int|
                    0 <= i < handles.len() ==> self.settled(
                        (#[trigger] handles[i]) as int,
                        cur as int,
                        done,
                        p,
                    ),
                forall|k: int| #[trigger]
                    self.settled(k, cur as int, done, p) ==> handles@.contains(k as usize),
            decreases
                    self.nodes.len() - cur + (if done {
                        0int
                    } else {
                        1int
                    }),
        {
            let here = self.nodes[cur];
            assert(self.node_ok(cur as int));
            let mut link = here.first;
            proof {
                assert forall|k: int| #[trigger]
                    self.due(k, cur as int, link, p) implies handles@.contains(k as usize) by {
                    self.lemma_hit_on_path(k, p);
                    assert(self.entry_ok(k));
                    assert(self.settled(k, cur as int, done, p));
                }
                assert forall|i: int| 0 <= i < handles.len() implies self.due(
                    (#[trigger] handles[i]) as int,
                    cur as int,
                    link,
                    p,
                ) by {
                    assert(self.settled(handles[i] as int, cur as int, done, p));
                }
            }
            while link != NONE
                invariant
                    self.wf(),
                    cur < self.nodes.len(),
                    link == NONE || (link < self.entries.len() && self.entries[link as int].indexed
                        && self.entries[link as int].node == cur),
                    handles@.no_duplicates(),
                    forall|i: int|
                        0 <= i < handles.len() ==> self.due(
                            (#[trigger] handles[i]) as int,
                            cur as int,
                            link,
                            p,
                        ),
                    forall|k: int| #[trigger]
                        self.due(k, cur as int, link, p) ==> handles@.contains(k as usize),
                decreases lower(link) + 1,
            {
                let entry = self.entries[link];
                assert(self.entry_ok(link as int));
                let inside = entry.extent.contains(p);
                proof {
                    lemma_within_extent(entry.extent, self.store@[link as int].boundary->0, p);
                }
                assert(inside == self.hit(link as int, p));
                let ghost before = handles@;
                proof {
                    if before.contains(link) {
                        let i = choose|i: int| 0 <= i < before.len() && before[i] == link;
                        assert(self.due(before[i] as int, cur as int, link, p));
                    }
                }
                if inside {
                    handles.push(link);
                }
                proof {
                    self.lemma_step(before, handles@, cur as int, link, inside, p);
                }
                link = entry.next;
            }
            let slot = here.region.quadrant_index(p);
            let below = if here.region.can_split() {
                here.child_at(slot)
            } else {
                NONE
            };
            if below != NONE {
                proof {
                    assert(self.child_ok(cur as int, slot as int));
                    assert(self.node_ok(below as int));
                    here.region.lemma_quadrants(slot as int, p);
                    assert forall|k: int| #[trigger]
                        self.settled(k, below as int, false, p) implies handles@.contains(
                        k as usize,
                    ) by {
                        self.lemma_hit_on_path(k, p);
                        if self.depth_of(k) == here.depth {
                            self.lemma_path_unique(self.entries[k].node as int, cur as int, p);
                        }
                        assert(self.due(k, cur as int, NONE, p));
                    }
                    assert forall|i: int| 0 <= i < handles.len() implies self.settled(
                        (#[trigger] handles[i]) as int,
                        below as int,
                        false,
                        p,
                    ) by {
                        assert(self.due(handles[i] as int, cur as int, NONE, p));
                    }
                }
                cur = below;
            } else {
                proof {
                    assert forall|k: int| #[trigger]
                        self.settled(k, cur as int, true, p) implies handles@.contains(
                        k as usize,
                    ) by {
                        self.lemma_hit_on_path(k, p);
                        let n = self.entries[k].node as int;
                        if self.nodes[n].depth == here.depth {
                            self.lemma_path_unique(n, cur as int, p);
                        } else if self.nodes[n].depth > here.depth {
                            self.lemma_path_continues(cur as int, n, p);
                        }
                        assert(self.due(k, cur as int, NONE, p));
                    }
                    assert forall|i: int| 0 <= i < handles.len() implies self.settled(
                        (#[trigger] handles[i]) as int,
                        cur as int,
                        true,
                        p,
                    ) by {
                        assert(self.due(handles[i] as int, cur as int, NONE, p));
                    }
                }
                done = true;
            }
        }
        proof {
            assert forall|h: usize|
                h < self@.len() && (#[trigger] self@[h as int]).within_extent(
                    p,
                ) implies handles@.contains(h) by {
                assert(self.settled(h as int, cur as int, true, p));
            }
            assert forall|i: int| 0 <= i < handles@.len() implies (#[trigger] handles@[i])
                < self@.len() && self@[handles@[i] as int].within_extent(p) by {
                assert(self.settled(handles[i] as int, cur as int, true, p));
            }
        }
        handles
    }

    /// Runs the exact polygon test on the candidates by extent.
    fn handles_for_coord(&self, p: Coord) -> (handles: Vec<usize>)
        requires
            self.wf(),
        ensures
            is_hit_list(self@, handles@, p),
    {
        let candidates = self.candidates_for_coord(p);
        let mut handles: Vec<usize> = Vec::new();
        let mut i: usize = 0;
        while i < candidates.len()
            invariant
                self.wf(),
                i <= candidates.len(),
                is_candidate_list(self@, candidates@, p),
                handles@.no_duplicates(),
                forall|j: int|
                    0 <= j < handles.len() ==> (#[trigger] handles[j]) < self@.len()
                        && self@[handles[j] as int].covers(p) && exists|m: int|
                        0 <= m < i && candidates[m] == handles[j],
                forall|m: int|
                    0 <= m < i && self@[(#[trigger] candidates[m]) as int].covers(p)
                        ==> handles@.contains(candidates[m]),
            decreases candidates.len() - i,
        {
            let h = candidates[i];
            let entry = self.entries[h];
            assert(self.entry_ok(h as int));
            let inside = match &self.store.get(h).boundary {
                Some(boundary) => {
                    proof {
                        if !entry.indexed {
                            lemma_no_vertex_no_extent(boundary@, p);
                        }
                    }
                    boundary.contains_within(&entry.extent, p)
                },
                None => false,
            };
            let ghost before = handles@;
            if inside {
                proof {
                    if before.contains(h) {
                        let j = choose|j: int| 0 <= j < before.len() && before[j] == h;
                        let m = choose|m: int| 0 <= m < i && candidates[m] == before[j];
                    }
                }
                handles.push(h);
            }
            proof {
                assert forall|m: int|
                    0 <= m < i + 1 && self@[(#[trigger] candidates[m]) as int].covers(
                        p,
                    ) implies handles@.contains(candidates[m]) by {
                    if m < i {
                        let j = choose|j: int| 0 <= j < before.len() && before[j] == candidates[m];
                        assert(handles@[j] == candidates[m]);
                    } else {
                        assert(handles@[before.len() as int] == h);
                    }
                }
                assert forall|j: int| 0 <= j < handles.len() implies (#[trigger] handles[j])
                    < self@.len() && self@[handles[j] as int].covers(p) && exists|m: int|
                    0 <= m < i + 1 && candidates[m] == handles[j] by {
                    if j < before.len() {
                        let m = choose|m: int| 0 <= m < i && candidates[m] == before[j];
                        assert(candidates[m] == handles[j]);
                    } else {
                        assert(candidates[i as int] == handles[j]);
                    }
                }
            }
            i += 1;
        }
        proof {
            assert forall|h: usize| h < self@.len() && (#[trigger] self@[h as int]).covers(
                p,
            ) implies handles@.contains(h) by {
                assert(self@[h as int].within_extent(p));
                let m = choose|m: int| 0 <= m < candidates.len() && candidates[m] == h;
                assert(handles@.contains(candidates[m]));
            }
        }
        handles
    }
}

/// The regions of a run together with the index over their boundaries.
pub struct AdminGeoFinder {
    index: QuadIndex,
}

impl View for AdminGeoFinder {
    type V = Seq<AdminView>;

    /// The regions, by handle.
    closed spec fn view(&self) -> Seq<AdminView> {
        self.index@
    }
}

impl AdminGeoFinder {
    /// The index is in order at all times.
    #[verifier::type_invariant]
    spec fn sound(self) -> bool {
        self.index.wf()
    }

    /// An index over no regions.
    pub fn new() -> (finder: AdminGeoFinder)
        ensures
            finder@ == Seq::<AdminView>::empty(),
    {
        AdminGeoFinder { index: QuadIndex::new() }
    }

    /// An index over the given regions; the handle of a region is its
    /// position in `admins`.
    pub fn build(admins: Vec<Admin>) -> (finder: AdminGeoFinder)
        ensures
            finder@ == admin_views(admins@),
    {
        let mut index = QuadIndex::new();
        let ghost all = admins@;
        for admin in iter: admins.into_iter()
            invariant
                index.wf(),
                iter.seq() == all,
                index@ == admin_views(all.take(iter.index())),
        {
            index.add_admin(admin);
            assert(index@ =~= admin_views(all.take(iter.index() + 1)));
        }
        assert(all.take(all.len() as int) == all);
        AdminGeoFinder { index: index }
    }

    /// An index over the given regions, for a caller that cannot do without
    /// spatial search: where no region has a boundary to search, the index
    /// is not built.
    pub fn build_searchable(admins: Vec<Admin>) -> (r: Result<AdminGeoFinder, IndexError>)
        ensures
            match r {
                Ok(finder) => finder@ == admin_views(admins@) && is_searchable(finder@),
                Err(e) => e == IndexError::NoBoundary && !is_searchable(admin_views(admins@)),
            },
    {
        let finder = AdminGeoFinder::build(admins);
        if finder.has_boundaries() {
            Ok(finder)
        } else {
            Err(IndexError::NoBoundary)
        }
    }

    /// Adds a region to the store and, where it has a boundary with an
    /// extent, to the index.
    pub fn add_admin(&mut self, admin: Admin)
        ensures
            final(self)@ == old(self)@.push(admin@),
    {
        proof {
            use_type_invariant(&*self);
        }
        let mut index = QuadIndex::new();
        std::mem::swap(&mut index, &mut self.index);
        index.add_admin(admin);
        self.index = index;
    }

    /// The number of regions.
    pub fn len(&self) -> (n: usize)
        ensures
            n == self@.len(),
    {
        self.index.store.len()
    }

    /// The store that owns the regions.
    pub fn store(&self) -> (store: &AdminStore)
        ensures
            store@ == self@,
    {
        &self.index.store
    }

    /// The region with the given handle.
    pub fn admin(&self, handle: usize) -> (admin: &Admin)
        requires
            handle < self@.len(),
        ensures
            admin@ == self@[handle as int],
    {
        self.index.store.get(handle)
    }

    /// Whether any region can be found by position: whether any has a
    /// boundary with an outer vertex.
    pub fn has_boundaries(&self) -> (r: bool)
        ensures
            r == is_searchable(self@),
    {
        proof {
            use_type_invariant(self);
        }
        self.index.has_boundaries()
    }

    /// The first phase of a point query: the handles of the regions whose
    /// boundary has `p` in its bounding box, each once, in no particular
    /// order. No region with `p` inside its boundary is left out.
    pub fn candidates_for_coord(&self, p: Coord) -> (handles: Vec<usize>)
        ensures
            is_candidate_list(self@, handles@, p),
    {
        proof {
            use_type_invariant(self);
        }
        self.index.candidates_for_coord(p)
    }

    /// The handles of the regions that have `p` inside their boundary, each
    /// once, in no particular order: the candidates by bounding box that
    /// pass the exact polygon test.
    pub fn handles_for_coord(&self, p: Coord) -> (handles: Vec<usize>)
        ensures
            is_hit_list(self@, handles@, p),
    {
        proof {
            use_type_invariant(self);
        }
        self.index.handles_for_coord(p)
    }

    /// The regions that have `coord` inside their boundary, each once, in no
    /// particular order.
    pub fn get_admins_for_coord(&self, coord: &Coord) -> (admins: Vec<&Admin>)
        ensures
            exists|handles: Seq<usize>| #[trigger]
                is_hit_list(self@, handles, *coord) && admins@.len() == handles.len() && forall|
                    i: int,
                |
                    0 <= i < handles.len() ==> (#[trigger] admins@[i])@ == self@[handles[i] as int],
    {
        let handles = self.handles_for_coord(*coord);
        let mut admins: Vec<&Admin> = Vec::new();
        let mut i: usize = 0;
        while i < handles.len()
            invariant
                i <= handles.len(),
                is_hit_list(self@, handles@, *coord),
                admins@.len() == i,
                forall|j: int| 0 <= j < i ==> (#[trigger] admins@[j])@ == self@[handles[j] as int],
            decreases handles.len() - i,
        {
            admins.push(self.admin(handles[i]));
            i += 1;
        }
        assert(is_hit_list(self@, handles@, *coord));
        admins
    }
}

/// The first phase of a point query loses nothing: a region with `p` inside
/// its boundary is among the candidates by bounding box.
pub proof fn lemma_candidates_include_hits(
    admins: Seq<AdminView>,
    candidates: Seq<usize>,
    hits: Seq<usize>,
    p: Coord,
)
    requires
        is_candidate_list(admins, candidates, p),
        is_hit_list(admins, hits, p),
    ensures
        forall|i: int| 0 <= i < hits.len() ==> candidates.contains(#[trigger] hits[i]),
{
    assert forall|i: int| 0 <= i < hits.len() implies candidates.contains(#[trigger] hits[i]) by {
        assert(admins[hits[i] as int].covers(p));
        assert(admins[hits[i] as int].within_extent(p));
    }
}

/// A point query has one answer: two lists of the regions with `p` inside
/// their boundary hold the same regions, and equally many.
pub proof fn lemma_hit_lists_agree(
    admins: Seq<AdminView>,
    first: Seq<usize>,
    second: Seq<usize>,
    p: Coord,
)
    requires
        is_hit_list(admins, first, p),
        is_hit_list(admins, second, p),
    ensures
        first.to_set() == second.to_set(),
        first.len() == second.len(),
{
    assert forall|h: usize| first.contains(h) <==> second.contains(h) by {
        if first.contains(h) {
            let i = choose|i: int| 0 <= i < first.len() && first[i] == h;
            assert(admins[first[i] as int].covers(p));
        }
        if second.contains(h) {
            let i = choose|i: int| 0 <= i < second.len() && second[i] == h;
            assert(admins[second[i] as int].covers(p));
        }
    }
    assert(first.to_set() =~= second.to_set());
    first.unique_seq_to_set();
    second.unique_seq_to_set();
}

} // verus!
