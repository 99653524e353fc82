//! The two-tree handle: rays always go to the binary hierarchy, bound queries
//! to the wide tree where it is wired.
use vstd::prelude::*;
use crate::bvh as tree;
use crate::bvh::Bvh;
use crate::frustum as bound;
use crate::frustum::{Bound, Cut, Verdict};
use crate::ftree::collapse as wide;
use crate::ftree::collapse::{FTree, FT_STACK, MAX_NODES};
use crate::ftree::query;

verus! {

/// Which bound queries go to the wide tree.
#[derive(Clone, Copy, Debug, PartialEq, Eq, Structural)]
pub struct TreeLevers {
    /// Off sends all of them to the binary hierarchy.
    pub ftree_enabled: bool,
    /// On sends those of the primary tiles too.
    pub ftree_tiles: bool,
}

impl Default for TreeLevers {
    /// The wide tree serves all bound queries but those of the primary tiles.
    fn default() -> (l: Self)
        ensures
            l.ftree_enabled,
            !l.ftree_tiles,
    {
        TreeLevers { ftree_enabled: true, ftree_tiles: false }
    }
}

/// A binary hierarchy and the wide tree collapsed from it, once one is needed.
/// The wide tree lives and dies with its hierarchy.
pub struct Hierarchy {
    pub bvh: Bvh,
    pub ftree: Option<FTree>,
}

/// The hierarchy is a tree, and every node of it has an area.
pub open spec fn collapsible(bvh: Bvh, areas: Seq<u32>) -> bool {
    bvh.tri_idx@.len() > 0 ==> {
        &&& tree::links_inside(bvh.nodes@)
        &&& 1 <= bvh.nodes@.len() <= u32::MAX
        &&& areas.len() == bvh.nodes@.len()
        &&& tree::is_tree(bvh.nodes@, 0)
    }
}

/// The wide tree is that of this hierarchy.
pub open spec fn matches_tree(bvh: Bvh, ft: FTree) -> bool {
    &&& ft.over@ == bvh.nodes@
    &&& ft.wf()
    &&& bvh.tri_idx@.len() == 0 <==> wide::is_bare(ft)
}

impl Hierarchy {
    /// The wide tree, where there is one, is that of the hierarchy.
    pub open spec fn wf(self) -> bool {
        self.ftree matches Some(ft) ==> matches_tree(self.bvh, ft)
    }

    /// A hierarchy with no wide tree yet.
    pub fn new(bvh: Bvh) -> (h: Hierarchy)
        ensures
            h.bvh == bvh,
            h.ftree is None,
            h.wf(),
    {
        Hierarchy { bvh, ftree: None }
    }

    /// Sees to it that the wide tree is there where the levers want it; a tree
    /// that is there stays. Fails with the depth of a tree that is too deep.
    pub fn install(&mut self, areas: &Vec<u32>, levers: &TreeLevers) -> (r: Result<(), usize>)
        requires
            old(self).wf(),
            collapsible(old(self).bvh, areas@),
        ensures
            final(self).wf(),
            final(self).bvh == old(self).bvh,
            !levers.ftree_enabled || old(self).ftree is Some ==> r is Ok && final(self).ftree
                == old(self).ftree,
            levers.ftree_enabled && r is Ok ==> final(self).ftree is Some,
            levers.ftree_enabled && old(self).ftree is None ==> (final(self).ftree matches Some(
                ft,
            ) ==> ft.levels() <= FT_STACK && if old(self).bvh.tri_idx@.len() == 0 {
                wide::is_bare(ft)
            } else {
                wide::collapsed(old(self).bvh.nodes@, areas@, ft)
            }),
            r is Err ==> final(self).ftree is None,
            r matches Err(d) ==> d > FT_STACK && wide::collapses_to(
                old(self).bvh.nodes@,
                areas@,
                d as nat,
            ),
    {
        if !levers.ftree_enabled || self.ftree.is_some() {
            return Ok(());
        }
        match FTree::build(&self.bvh, areas) {
            Ok(ft) => {
                proof {
                    if self.bvh.tri_idx@.len() > 0 {
                        assert(wide::node_ok(
                            ft.over@,
                            ft.areas@,
                            ft.nodes@,
                            ft.covers@,
                            ft.ends@,
                            0,
                        ));
                    }
                }
                self.ftree = Some(ft);
                Ok(())
            },
            Err(d) => Err(d),
        }
    }
}

/// The dispatch handle: the binary hierarchy, and the wide tree where bound
/// queries go there.
pub struct Accel<'a> {
    pub bvh: &'a Bvh,
    pub ft: Option<&'a FTree>,
}

impl<'a> Accel<'a> {
    /// The wide tree, where there is one, is that of the hierarchy.
    pub open spec fn wf(self) -> bool {
        self.ft matches Some(ft) ==> matches_tree(*self.bvh, *ft)
    }

    /// The binary nodes behind a cut.
    pub open spec fn seeds(self, cut: Seq<u32>) -> Seq<u32> {
        match self.ft {
            Some(ft) => query::bnodes(*ft, cut),
            None => cut,
        }
    }

    /// The whole-tree cut.
    pub open spec fn top(self) -> Seq<u32> {
        match self.ft {
            Some(ft) => ft.root_cut@,
            None => seq![0u32],
        }
    }

    /// A query on the cut is in order: its ids are those of the tree that
    /// answers, and the table has a verdict for every binary node.
    pub open spec fn answers(self, table: Seq<Verdict>, cut: Seq<u32>) -> bool {
        match self.ft {
            Some(ft) => query::tabled(*ft, table) && query::is_cut(*ft, cut),
            None => self.bvh.tri_idx@.len() > 0 ==> bound::rooted(self.bvh.nodes@, table, cut),
        }
    }

    /// What a query's search ends with and how many nodes it looks at: wide
    /// ones where the wide tree answers. Each root of an empty hierarchy is
    /// looked at and holds nothing.
    pub open spec fn search(
        self,
        table: Seq<Verdict>,
        t_start: u32,
        t_limit: u32,
        roots: Seq<u32>,
    ) -> (u32, nat) {
        let n = roots.len() as int;
        match self.ft {
            Some(ft) => query::search_cut(*ft, table, t_start, t_limit, roots, n),
            None => if self.bvh.tri_idx@.len() == 0 {
                (t_limit, roots.len())
            } else {
                bound::search_all(self.bvh.nodes@, table, t_start, t_limit, roots, n)
            },
        }
    }

    /// The handle of a session: the wide tree where the levers want it and it
    /// is there.
    pub fn of(h: &'a Hierarchy, levers: &TreeLevers) -> (a: Accel<'a>)
        requires
            h.wf(),
        ensures
            a.wf(),
            *a.bvh == h.bvh,
            a.ft is Some <==> levers.ftree_enabled && h.ftree is Some,
            a.ft matches Some(ft) ==> h.ftree == Some(*ft),
    {
        let ft: Option<&'a FTree> = if levers.ftree_enabled {
            match &h.ftree {
                Some(ft) => Some(ft),
                None => None,
            }
        } else {
            None
        };
        Accel { bvh: &h.bvh, ft }
    }

    /// The handle of the primary tiles: that of the session where the lever
    /// for tiles is on, else the binary hierarchy alone.
    pub fn for_tiles(h: &'a Hierarchy, levers: &TreeLevers) -> (a: Accel<'a>)
        requires
            h.wf(),
        ensures
            a.wf(),
            *a.bvh == h.bvh,
            a.ft is Some <==> levers.ftree_tiles && levers.ftree_enabled && h.ftree is Some,
            a.ft matches Some(ft) ==> h.ftree == Some(*ft),
    {
        if levers.ftree_tiles {
            Accel::of(h, levers)
        } else {
            Accel { bvh: &h.bvh, ft: None }
        }
    }

    /// The whole-tree cut: the wide root's slots, or the binary root.
    pub fn root_cut(&self) -> (cut: Vec<u32>)
        ensures
            cut@ == self.top(),
    {
        let mut cut: Vec<u32> = Vec::new();
        match self.ft {
            Some(ft) => {
                let n: usize = ft.root_cut.len();
                let mut i: usize = 0;
                while i < n
                    invariant
                        i <= n,
                        n == ft.root_cut@.len(),
                        cut@ == ft.root_cut@.take(i as int),
                    decreases n - i,
                {
                    cut.push(ft.root_cut[i]);
                    i = i + 1;
                    assert(cut@ =~= ft.root_cut@.take(i as int));
                }
                assert(ft.root_cut@.take(n as int) =~= ft.root_cut@);
            },
            None => {
                cut.push(0);
                assert(cut@ =~= seq![0u32]);
            },
        }
        cut
    }

    /// How near geometry inside the frustum can start, past `t_start` and
    /// below `t_limit`, looking behind the cut.
    pub fn nearest_within(
        &self,
        table: &Vec<Verdict>,
        t_start: u32,
        t_limit: u32,
        roots: &[u32],
    ) -> (r: Bound)
        requires
            self.wf(),
            self.answers(table@, roots@),
            roots@.len() <= u32::MAX,
        ensures
            self.bvh.tri_idx@.len() == 0 ==> r.t is None,
            self.bvh.tri_idx@.len() > 0 && bound::numbers(t_start, t_limit) ==> bound::found(
                self.bvh.nodes@,
                table@,
                t_start,
                t_limit,
                self.seeds(roots@),
                r.t,
            ),
            r.t == bound::below(self.search(table@, t_start, t_limit, roots@).0, t_limit),
            r.visits == self.search(table@, t_start, t_limit, roots@).1,
    {
        match self.ft {
            Some(ft) => {
                let r = ft.nearest_within(table, t_start, t_limit, roots);
                proof {
                    if self.bvh.tri_idx@.len() == 0 && roots@.len() > 0 {
                        assert(query::is_entry(*ft, roots@[0]));
                    }
                }
                r
            },
            None => bound::nearest_geometry_distance_within(
                self.bvh,
                table,
                t_start,
                t_limit,
                roots,
            ),
        }
    }

    /// Refines a parent's cut for a narrower frustum.
    pub fn refine_cut(
        &self,
        table: &Vec<Verdict>,
        t_ball: u32,
        t_far: u32,
        parent_cut: &[u32],
        budget: u32,
    ) -> (cut: Cut)
        requires
            self.wf(),
            self.answers(table@, parent_cut@),
            parent_cut@.len() <= budget,
            self.ft matches Some(ft) ==> ft.nodes@.len() <= MAX_NODES,
        ensures
            cut.entries@.len() <= budget,
            self.ft matches Some(ft) ==> query::is_cut(*ft, cut.entries@) && bound::makes(
                query::entry_rule(*ft, table@, t_ball, t_far, budget as nat),
                parent_cut@,
                cut,
            ),
            self.ft is None && self.bvh.tri_idx@.len() > 0 ==> bound::makes(
                bound::node_rule(self.bvh.nodes@, table@, t_ball, t_far, budget as nat),
                parent_cut@,
                cut,
            ),
            self.bvh.tri_idx@.len() == 0 ==> cut.entries@.len() == 0,
            self.ft is None && self.bvh.tri_idx@.len() == 0 ==> cut.visits == 0 && cut.overflows
                == 0,
            self.bvh.tri_idx@.len() > 0 ==> {
                &&& bound::sound_entries(
                    self.bvh.nodes@,
                    table@,
                    t_ball,
                    t_far,
                    self.seeds(parent_cut@),
                    self.seeds(cut.entries@),
                    cut.overflows as nat,
                )
                &&& forall|i: int|
                    0 <= i < parent_cut@.len() ==> bound::covered(
                        self.bvh.nodes@,
                        table@,
                        t_ball,
                        t_far,
                        #[trigger] self.seeds(parent_cut@)[i] as int,
                        self.seeds(cut.entries@),
                    )
            },
    {
        match self.ft {
            Some(ft) => {
                let cut = ft.refine_cut(table, t_ball, t_far, parent_cut, budget);
                proof {
                    if self.bvh.tri_idx@.len() == 0 && cut.entries@.len() > 0 {
                        assert(query::is_entry(*ft, cut.entries@[0]));
                    }
                }
                cut
            },
            None => bound::refine_cut(self.bvh, table, t_ball, t_far, parent_cut, budget),
        }
    }

    /// A cut as roots for rays on the binary hierarchy: as many as `limit`
    /// allows where the wide tree's slots are mapped, the cut itself where its
    /// ids are binary ones.
    pub fn ray_roots(&self, cut: &[u32], limit: usize) -> (roots: Vec<u32>)
        requires
            self.wf(),
            self.ft matches Some(ft) ==> query::is_cut(*ft, cut@),
        ensures
            self.ft is Some && limit < cut@.len() ==> roots@ == self.seeds(cut@).take(limit as int),
            self.ft is None || cut@.len() <= limit ==> roots@ == self.seeds(cut@),
    {
        match self.ft {
            Some(ft) => {
                let roots = ft.to_bvh_roots(cut, limit);
                assert(cut@.len() <= limit ==> self.seeds(cut@).take(cut@.len() as int)
                    =~= self.seeds(cut@));
                roots
            },
            None => {
                let mut roots: Vec<u32> = Vec::new();
                let n: usize = cut.len();
                let mut i: usize = 0;
                while i < n
                    invariant
                        i <= n,
                        n == cut@.len(),
                        roots@ == cut@.take(i as int),
                    decreases n - i,
                {
                    roots.push(cut[i]);
                    i = i + 1;
                    assert(roots@ =~= cut@.take(i as int));
                }
                assert(cut@.take(n as int) =~= cut@);
                roots
            },
        }
    }
}

/// Whichever tree answers, the bound behind the whole-tree cut is the same.
pub proof fn either_tree_gives_the_same_bound<'a>(
    wired: Accel<'a>,
    plain: Accel<'a>,
    table: Seq<Verdict>,
    t_start: u32,
    t_limit: u32,
    s: Option<u32>,
    t: Option<u32>,
)
    requires
        wired.wf(),
        wired.ft is Some,
        plain.ft is None,
        wired.bvh == plain.bvh,
        wired.bvh.tri_idx@.len() > 0,
        wired.answers(table, wired.top()),
        bound::nested(wired.bvh.nodes@, table),
        bound::found(
            wired.bvh.nodes@,
            table,
            t_start,
            t_limit,
            wired.seeds(wired.top()),
            s,
        ),
        bound::found(
            plain.bvh.nodes@,
            table,
            t_start,
            t_limit,
            plain.seeds(plain.top()),
            t,
        ),
    ensures
        bound::agree(s, t),
{
    let ft = *wired.ft->0;
    assert(wide::node_ok(ft.over@, ft.areas@, ft.nodes@, ft.covers@, ft.ends@, 0));
    query::wide_bounds_are_the_binary_ones(ft, table, t_start, t_limit, s, t);
}

/// A handle's whole-tree cut is the binary root, or the wide root's slots by
/// number; and behind entry `e` of a wide cut stands the binary node of slot
/// `e % 8` of wide node `e / 8`, behind that of a binary one the node itself.
pub proof fn cuts_name_binary_nodes<'a>(a: Accel<'a>, cut: Seq<u32>, i: int)
    requires
        0 <= i < cut.len(),
    ensures
        a.seeds(cut).len() == cut.len(),
        a.ft is None ==> a.seeds(cut)[i] == cut[i] && a.top() == seq![0u32],
        a.ft matches Some(ft) ==> {
            &&& a.seeds(cut)[i] == ft.nodes@[cut[i] as int / 8].slots@[cut[i] as int % 8].bnode
            &&& a.top() == ft.root_cut@
        },
{
}

} // verus!
