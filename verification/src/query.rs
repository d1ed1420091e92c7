//! Queries: composable views over the component stores.
//!
//! A query is a sequence of views. Required views (`Read`, `Write`) narrow
//! the selection to entities holding the component; optional views
//! (`TryRead`, `TryWrite`) fetch the component when present without
//! narrowing; `Entities` fetches the entity id itself. The final filter is
//! the live set intersected with every required store's membership set.

use vstd::prelude::*;

use crate::bitset::BitSet;
use crate::bitset::bit_set_view;
use crate::component::ComponentTypeId;
use crate::entity::Entity;
use crate::world::World;

verus! {

/// One column access of a query.
#[derive(Clone, Copy, PartialEq, Eq, Structural, Debug)]
pub enum QueryView {
    /// Shared access to a required component.
    Read(ComponentTypeId),
    /// Exclusive access to a required component.
    Write(ComponentTypeId),
    /// Shared access to an optional component.
    TryRead(ComponentTypeId),
    /// Exclusive access to an optional component.
    TryWrite(ComponentTypeId),
    /// The entity id itself.
    Entities,
}

/// What one view yields for one entity.
#[derive(Clone, Copy, PartialEq, Debug)]
pub enum QueryItem<V> {
    /// A required component's value.
    Value(V),
    /// An optional component's value, when present.
    Maybe(Option<V>),
    /// The entity the row belongs to.
    Ent(Entity),
}

/// Whether a view narrows the filter.
pub open spec fn is_required(v: QueryView) -> bool {
    v is Read || v is Write
}

/// Whether a view fetches a component (required or optional).
pub open spec fn view_tid(v: QueryView) -> ComponentTypeId {
    match v {
        QueryView::Read(t) => t,
        QueryView::Write(t) => t,
        QueryView::TryRead(t) => t,
        QueryView::TryWrite(t) => t,
        QueryView::Entities => ComponentTypeId { id: 0 },
    }
}

/// The set of entity indices a query selects: the live indices that hold a
/// row in every required store. Optional views contribute nothing.
pub open spec fn query_filter<V>(w: World<V>, views: Seq<QueryView>) -> Set<u32> {
    Set::new(
        |i: u32|
            w.entity_allocator.slot_live(i) && forall|k: int|
                0 <= k < views.len() && is_required(#[trigger] views[k]) ==> w.store(
                    view_tid(views[k]),
                ).dom().contains(i),
    )
}

/// The row a query yields for a selected index: one item per view, in view
/// order.
pub open spec fn fetch_spec<V>(w: World<V>, views: Seq<QueryView>, i: u32) -> Seq<QueryItem<V>> {
    Seq::new(
        views.len(),
        |k: int|
            match views[k] {
                QueryView::Read(t) => QueryItem::Value(w.store(t)[i]),
                QueryView::Write(t) => QueryItem::Value(w.store(t)[i]),
                QueryView::TryRead(t) => if w.store(t).dom().contains(i) {
                    QueryItem::Maybe(Some(w.store(t)[i]))
                } else {
                    QueryItem::Maybe(None)
                },
                QueryView::TryWrite(t) => if w.store(t).dom().contains(i) {
                    QueryItem::Maybe(Some(w.store(t)[i]))
                } else {
                    QueryItem::Maybe(None)
                },
                QueryView::Entities => QueryItem::Ent(
                    Entity { id: i, generation: w.entity_allocator.slot_generation(i) },
                ),
            },
    )
}

/// A query over the world: a fixed sequence of views.
pub struct Query {
    views: Vec<QueryView>,
}

impl Query {
    pub closed spec fn spec_views(self) -> Seq<QueryView> {
        self.views@
    }

    pub fn new(views: Vec<QueryView>) -> (r: Query)
        ensures
            r.spec_views() == views@,
    {
        Query { views }
    }

    /// Materialises the query: one row per selected entity, in ascending
    /// index order, each row carrying the entity and one item per view.
    pub fn iter<V: Copy>(&self, world: &World<V>) -> (r: Vec<(Entity, Vec<QueryItem<V>>)>)
        requires
            world.wf(),
        ensures
            forall|a: int, b: int| 0 <= a < b < r@.len() ==> r@[a].0.id < r@[b].0.id,
            forall|a: int|
                0 <= a < r@.len() ==> query_filter(*world, self.spec_views()).contains(
                    (#[trigger] r@[a]).0.id,
                ) && r@[a].0.generation == world.entity_allocator.slot_generation(r@[a].0.id)
                    && r@[a].1@ == fetch_spec(*world, self.spec_views(), r@[a].0.id),
            forall|i: u32|
                query_filter(*world, self.spec_views()).contains(i) ==> exists|a: int|
                    0 <= a < r@.len() && (#[trigger] r@[a]).0.id == i,
    {
        let ghost views = self.views@;
        let mut bitset = world.entity_allocator.get_bitset().clone_bits();
        let mut k: usize = 0;
        while k < self.views.len()
            invariant
                world.wf(),
                views == self.views@,
                k <= views.len(),
                bit_set_view(bitset) == world.entity_allocator.live_set(),
                bit_set_view(bitset).finite(),
            decreases views.len() - k,
        {
            match self.views[k] {
                QueryView::TryRead(t) => {
                    match world.components.get_bitset(t) {
                        Some(b) => {
                            bitset.union_with(b);
                            proof {
                                lemma_store_dom_subset_live(*world, t);
                                assert(bit_set_view(bitset)
                                    =~= world.entity_allocator.live_set());
                            }
                        },
                        None => {},
                    }
                },
                QueryView::TryWrite(t) => {
                    match world.components.get_bitset(t) {
                        Some(b) => {
                            bitset.union_with(b);
                            proof {
                                lemma_store_dom_subset_live(*world, t);
                                assert(bit_set_view(bitset)
                                    =~= world.entity_allocator.live_set());
                            }
                        },
                        None => {},
                    }
                },
                _ => {},
            }
            k = k + 1;
        }
        let mut k2: usize = 0;
        while k2 < self.views.len()
            invariant
                world.wf(),
                views == self.views@,
                k2 <= views.len(),
                bit_set_view(bitset) =~= Set::new(
                    |i: u32|
                        world.entity_allocator.slot_live(i) && forall|k3: int|
                            0 <= k3 < k2 && is_required(#[trigger] views[k3]) ==> world.store(
                                view_tid(views[k3]),
                            ).dom().contains(i),
                ),
                bit_set_view(bitset).finite(),
            decreases views.len() - k2,
        {
            let ghost pre_view = bit_set_view(bitset);
            match self.views[k2] {
                QueryView::Read(t) => {
                    match world.components.get_bitset(t) {
                        Some(b) => {
                            bitset.intersect_with(b);
                        },
                        None => {
                            let empty = BitSet::new();
                            bitset.intersect_with(&empty);
                        },
                    }
                },
                QueryView::Write(t) => {
                    match world.components.get_bitset(t) {
                        Some(b) => {
                            bitset.intersect_with(b);
                        },
                        None => {
                            let empty = BitSet::new();
                            bitset.intersect_with(&empty);
                        },
                    }
                },
                _ => {},
            }
            proof {
                assert forall|i: u32|
                    bit_set_view(bitset).contains(i) == (world.entity_allocator.slot_live(i)
                        && forall|k3: int|
                        0 <= k3 < k2 + 1 && is_required(#[trigger] views[k3]) ==> world.store(
                            view_tid(views[k3]),
                        ).dom().contains(i)) by {
                    if bit_set_view(bitset).contains(i) {
                        assert(pre_view.contains(i));
                        assert forall|k3: int|
                            0 <= k3 < k2 + 1 && is_required(#[trigger] views[k3]) implies world
                            .store(view_tid(views[k3])).dom().contains(i) by {
                            if k3 == k2 && is_required(views[k3]) {
                                assert(world.store(view_tid(views[k3])).dom().contains(i));
                            }
                        }
                    } else {
                        if world.entity_allocator.slot_live(i) && (forall|k3: int|
                            0 <= k3 < k2 + 1 && is_required(#[trigger] views[k3]) ==> world.store(
                                view_tid(views[k3]),
                            ).dom().contains(i)) {
                            assert(pre_view.contains(i));
                            assert(is_required(views[k2 as int]) ==> world.store(
                                view_tid(views[k2 as int]),
                            ).dom().contains(i));
                            assert(false);
                        }
                    }
                }
                assert(bit_set_view(bitset) =~= Set::new(
                    |i: u32|
                        world.entity_allocator.slot_live(i) && forall|k3: int|
                            0 <= k3 < k2 + 1 && is_required(#[trigger] views[k3]) ==> world.store(
                                view_tid(views[k3]),
                            ).dom().contains(i),
                ));
            }
            k2 = k2 + 1;
        }
        proof {
            assert(bit_set_view(bitset) =~= query_filter(*world, views));
        }
        let ids = bitset.indices();
        let mut r: Vec<(Entity, Vec<QueryItem<V>>)> = Vec::new();
        let mut a: usize = 0;
        while a < ids.len()
            invariant
                world.wf(),
                views == self.views@,
                a <= ids@.len(),
                forall|j: int, l: int| 0 <= j < l < ids@.len() ==> ids@[j] < ids@[l],
                forall|j: int|
                    0 <= j < ids@.len() ==> query_filter(*world, views).contains(
                        #[trigger] ids@[j],
                    ),
                forall|i: u32| query_filter(*world, views).contains(i) ==> ids@.contains(i),
                r@.len() == a,
                forall|j: int| 0 <= j < a ==> (#[trigger] r@[j]).0.id == ids@[j],
                forall|j: int|
                    0 <= j < a ==> (#[trigger] r@[j]).0.generation
                        == world.entity_allocator.slot_generation(r@[j].0.id) && r@[j].1@
                        == fetch_spec(*world, views, r@[j].0.id),
            decreases ids@.len() - a,
        {
            let id = ids[a];
            proof {
                assert(query_filter(*world, views).contains(id));
                assert(world.entity_allocator.live_set().contains(id)
                    == world.entity_allocator.slot_live(id));
            }
            match world.entity_allocator.get_entity(id) {
                Some(e) => {
                    let row = self.fetch_row(world, e);
                    r.push((e, row));
                },
                None => {
                    proof {
                        assert(false);
                    }
                },
            }
            a = a + 1;
        }
        proof {
            assert forall|i: u32|
                query_filter(*world, views).contains(i) implies exists|j: int|
                0 <= j < r@.len() && (#[trigger] r@[j]).0.id == i by {
                let j = choose|j: int| 0 <= j < ids@.len() && ids@[j] == i;
                assert(r@[j].0.id == i);
            }
        }
        r
    }

    /// Builds one row: an item per view for a selected entity.
    fn fetch_row<V: Copy>(&self, world: &World<V>, e: Entity) -> (r: Vec<QueryItem<V>>)
        requires
            world.wf(),
            query_filter(*world, self.spec_views()).contains(e.id),
            e.generation == world.entity_allocator.slot_generation(e.id),
        ensures
            r@ == fetch_spec(*world, self.spec_views(), e.id),
    {
        let ghost views = self.views@;
        let mut r: Vec<QueryItem<V>> = Vec::new();
        let mut k: usize = 0;
        while k < self.views.len()
            invariant
                world.wf(),
                views == self.views@,
                query_filter(*world, views).contains(e.id),
                e.generation == world.entity_allocator.slot_generation(e.id),
                k <= views.len(),
                r@.len() == k,
                forall|j: int| 0 <= j < k ==> r@[j] == fetch_spec(*world, views, e.id)[j],
            decreases views.len() - k,
        {
            match self.views[k] {
                QueryView::Read(t) => {
                    match world.components.get(t, e) {
                        Some(v) => {
                            r.push(QueryItem::Value(*v));
                        },
                        None => {
                            proof {
                                assert(is_required(views[k as int]));
                                assert(world.store(t).dom().contains(e.id));
                            }
                            r.push(vstd::pervasive::unreached());
                        },
                    }
                },
                QueryView::Write(t) => {
                    match world.components.get(t, e) {
                        Some(v) => {
                            r.push(QueryItem::Value(*v));
                        },
                        None => {
                            proof {
                                assert(is_required(views[k as int]));
                                assert(world.store(t).dom().contains(e.id));
                            }
                            r.push(vstd::pervasive::unreached());
                        },
                    }
                },
                QueryView::TryRead(t) => {
                    match world.components.get(t, e) {
                        Some(v) => {
                            r.push(QueryItem::Maybe(Some(*v)));
                        },
                        None => {
                            r.push(QueryItem::Maybe(None));
                        },
                    }
                },
                QueryView::TryWrite(t) => {
                    match world.components.get(t, e) {
                        Some(v) => {
                            r.push(QueryItem::Maybe(Some(*v)));
                        },
                        None => {
                            r.push(QueryItem::Maybe(None));
                        },
                    }
                },
                QueryView::Entities => {
                    r.push(QueryItem::Ent(Entity::new(e.id(), e.generation())));
                },
            }
            proof {
                assert(r@[k as int] == fetch_spec(*world, views, e.id)[k as int]);
            }
            k = k + 1;
        }
        proof {
            assert(r@ =~= fetch_spec(*world, views, e.id));
        }
        r
    }
}

/// Every store's membership set lies within the live set: components belong
/// only to live entities.
pub proof fn lemma_store_dom_subset_live<V>(w: World<V>, t: ComponentTypeId)
    requires
        w.wf(),
    ensures
        forall|i: u32|
            #[trigger] w.store(t).dom().contains(i) ==> w.entity_allocator.live_set().contains(i),
{
    assert forall|i: u32|
        #[trigger] w.store(t).dom().contains(i) implies w.entity_allocator.live_set().contains(
        i,
    ) by {
        assert(w.entity_allocator.live_set().contains(i) == w.entity_allocator.slot_live(i));
    }
}

/// Query correctness: a query of two required views selects exactly the live
/// entities present in both stores.
pub proof fn lemma_query_required_pair<V>(w: World<V>, a: ComponentTypeId, b: ComponentTypeId)
    ensures
        query_filter(w, seq![QueryView::Read(a), QueryView::Read(b)])
            =~= w.entity_allocator.live_set().intersect(w.store(a).dom()).intersect(
            w.store(b).dom(),
        ),
{
    let views = seq![QueryView::Read(a), QueryView::Read(b)];
    assert forall|i: u32|
        query_filter(w, views).contains(i) == w.entity_allocator.live_set().intersect(
            w.store(a).dom(),
        ).intersect(w.store(b).dom()).contains(i) by {
        assert(w.entity_allocator.live_set().contains(i) == w.entity_allocator.slot_live(i));
        assert(views[0] == QueryView::Read(a));
        assert(views[1] == QueryView::Read(b));
        if w.entity_allocator.slot_live(i) && w.store(a).dom().contains(i) && w.store(
            b,
        ).dom().contains(i) {
            assert forall|k: int|
                0 <= k < views.len() && is_required(#[trigger] views[k]) implies w.store(
                view_tid(views[k]),
            ).dom().contains(i) by {
                if k == 0 {
                } else {
                    assert(k == 1);
                }
            }
        }
    }
}

/// Query optional: adding an optional view to a query never changes which
/// entities it selects.
pub proof fn lemma_query_optional_no_filter<V>(
    w: World<V>,
    views: Seq<QueryView>,
    t: ComponentTypeId,
)
    ensures
        query_filter(w, views.push(QueryView::TryRead(t))) =~= query_filter(w, views),
{
    let pushed = views.push(QueryView::TryRead(t));
    assert forall|i: u32|
        query_filter(w, pushed).contains(i) == query_filter(w, views).contains(i) by {
        if query_filter(w, pushed).contains(i) {
            assert forall|k: int|
                0 <= k < views.len() && is_required(#[trigger] views[k]) implies w.store(
                view_tid(views[k]),
            ).dom().contains(i) by {
                assert(pushed[k] == views[k]);
            }
        }
        if query_filter(w, views).contains(i) {
            assert forall|k: int|
                0 <= k < pushed.len() && is_required(#[trigger] pushed[k]) implies w.store(
                view_tid(pushed[k]),
            ).dom().contains(i) by {
                if k < views.len() {
                    assert(pushed[k] == views[k]);
                } else {
                    assert(pushed[k] == QueryView::TryRead(t));
                }
            }
        }
    }
}

} // verus!
