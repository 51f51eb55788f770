use vstd::prelude::*;
use crate::dispatch::{bundles_of, partition};
use crate::keyed::{keyed, keys_unique, lemma_keyed_at, lemma_keyed_push, lemma_keyed_update};

verus! {

/// An entity handle: an opaque identifier with no payload.
#[derive(Clone, Copy, PartialEq, Eq, Structural, Hash, Debug)]
pub struct Entity(pub u64);

/// A positional component with three numeric fields.
#[derive(Clone, Copy, PartialEq, Eq, Structural, Debug)]
pub struct Position {
    pub x: u32,
    pub y: u32,
    pub z: u32,
}

/// One stored component: the entity it belongs to and its value.
struct Row<C> {
    entity: Entity,
    value: C,
}

/// The sub-mapping of one component type, named by its tag.
struct Table<C> {
    tag: u64,
    rows: Vec<Row<C>>,
}

/// An entity registry together with a component store indexed by type tag.
///
/// Each component type is named by a caller-chosen `u64` tag; values of all
/// types share the representation `C` (a single record type, or a tagged
/// union of the caller's component types). A lookup under one tag never sees
/// what was stored under another.
pub struct World<C> {
    next_entity_id: u64,
    entities: Vec<Entity>,
    components: Vec<Table<C>>,
}

spec fn row_key<C>() -> spec_fn(Row<C>) -> Entity {
    |r: Row<C>| r.entity
}

spec fn row_val<C>() -> spec_fn(Row<C>) -> C {
    |r: Row<C>| r.value
}

spec fn table_key<C>() -> spec_fn(Table<C>) -> u64 {
    |t: Table<C>| t.tag
}

spec fn table_val<C>() -> spec_fn(Table<C>) -> Map<Entity, C> {
    |t: Table<C>| keyed(t.rows@, row_key(), row_val())
}

spec fn rows_map<C>(rows: Seq<Row<C>>) -> Map<Entity, C> {
    keyed(rows, row_key(), row_val())
}

spec fn tables_map<C>(tables: Seq<Table<C>>) -> Map<u64, Map<Entity, C>> {
    keyed(tables, table_key(), table_val())
}

spec fn tables_wf<C>(tables: Seq<Table<C>>) -> bool {
    &&& keys_unique(tables, table_key())
    &&& forall|i: int| 0 <= i < tables.len() ==> keys_unique(#[trigger] tables[i].rows@, row_key())
}

/// Rewriting the value of one row rebinds that entity in that tag's sub-mapping.
proof fn lemma_set_value<C>(cs: Seq<Table<C>>, ti: int, j: int)
    requires
        tables_wf(cs),
        0 <= ti < cs.len(),
        0 <= j < cs[ti].rows@.len(),
    ensures
        forall|tb: Table<C>|
            tb.tag == cs[ti].tag && tb.rows@ == cs[ti].rows@.update(
                j,
                Row { entity: cs[ti].rows@[j].entity, value: tb.rows@[j].value },
            ) ==> tables_wf(#[trigger] cs.update(ti, tb)) && tables_map(cs.update(ti, tb))
                == tables_map(cs).insert(
                cs[ti].tag,
                rows_map(cs[ti].rows@).insert(cs[ti].rows@[j].entity, tb.rows@[j].value),
            ),
{
    assert forall|tb: Table<C>|
        tb.tag == cs[ti].tag && tb.rows@ == cs[ti].rows@.update(
            j,
            Row { entity: cs[ti].rows@[j].entity, value: tb.rows@[j].value },
        ) implies tables_wf(#[trigger] cs.update(ti, tb)) && tables_map(cs.update(ti, tb))
            == tables_map(cs).insert(
            cs[ti].tag,
            rows_map(cs[ti].rows@).insert(cs[ti].rows@[j].entity, tb.rows@[j].value),
        ) by {
        let row = Row { entity: cs[ti].rows@[j].entity, value: tb.rows@[j].value };
        lemma_keyed_update(cs[ti].rows@, row_key(), row_val(), j, row);
        lemma_keyed_update(cs, table_key(), table_val(), ti, tb);
        assert forall|i: int| 0 <= i < cs.update(ti, tb).len() implies keys_unique(
            #[trigger] cs.update(ti, tb)[i].rows@,
            row_key(),
        ) by {
            if i != ti {
                assert(cs.update(ti, tb)[i] == cs[i]);
            }
        }
    }
}

/// The components of `table` held by `es`, in the order of `es`, skipping
/// entities that hold none.
pub open spec fn extract<C>(table: Map<Entity, C>, es: Seq<Entity>) -> Seq<C>
    decreases es.len(),
{
    if es.len() == 0 {
        Seq::empty()
    } else {
        let rest = extract(table, es.drop_last());
        if table.contains_key(es.last()) {
            rest.push(table[es.last()])
        } else {
            rest
        }
    }
}

/// The sub-mapping of `tag` in the store `s`; empty where `tag` has none.
pub open spec fn table_in<C>(s: Map<u64, Map<Entity, C>>, tag: u64) -> Map<Entity, C> {
    if s.contains_key(tag) {
        s[tag]
    } else {
        Map::empty()
    }
}

/// The store `s` with `c` as the component of type `tag` of `e`.
pub open spec fn with_component<C>(s: Map<u64, Map<Entity, C>>, tag: u64, e: Entity, c: C) -> Map<
    u64,
    Map<Entity, C>,
> {
    s.insert(tag, table_in(s, tag).insert(e, c))
}

/// After a component is stored, it is what a lookup of that type and entity
/// finds; writing it again (as through a mutable handle) leaves the last
/// value written.
pub proof fn lemma_read_after_write<C>(s: Map<u64, Map<Entity, C>>, tag: u64, e: Entity, v: C, w: C)
    ensures
        table_in(with_component(s, tag, e, v), tag).contains_key(e),
        table_in(with_component(s, tag, e, v), tag)[e] == v,
        with_component(with_component(s, tag, e, v), tag, e, w) == with_component(s, tag, e, w),
        table_in(with_component(with_component(s, tag, e, v), tag, e, w), tag)[e] == w,
{
    assert(table_in(s, tag).insert(e, v).insert(e, w) =~= table_in(s, tag).insert(e, w));
    assert(with_component(with_component(s, tag, e, v), tag, e, w) =~= with_component(s, tag, e, w));
}

/// Storing a component of one type changes nothing that a lookup of another
/// type sees, whatever the two types' values look like.
pub proof fn lemma_other_type_untouched<C>(
    s: Map<u64, Map<Entity, C>>,
    u: u64,
    e: Entity,
    c: C,
    t: u64,
)
    requires
        t != u,
    ensures
        table_in(with_component(s, u, e, c), t) == table_in(s, t),
{
}

/// Storing the same value twice for one entity and type leaves the store as
/// storing it once does.
pub proof fn lemma_insert_idempotent<C>(s: Map<u64, Map<Entity, C>>, tag: u64, e: Entity, c: C)
    ensures
        with_component(with_component(s, tag, e, c), tag, e, c) == with_component(s, tag, e, c),
{
    lemma_read_after_write(s, tag, e, c, c);
}

/// Extraction over two sequences one after the other is the two extractions
/// one after the other.
pub proof fn lemma_extract_add<C>(table: Map<Entity, C>, a: Seq<Entity>, b: Seq<Entity>)
    ensures
        extract(table, a + b) == extract(table, a) + extract(table, b),
    decreases b.len(),
{
    if b.len() == 0 {
        assert(a + b =~= a);
        assert(extract(table, a) + extract(table, b) =~= extract(table, a));
    } else {
        lemma_extract_add(table, a, b.drop_last());
        assert((a + b).drop_last() =~= a + b.drop_last());
        assert((a + b).last() == b.last());
        let x = extract(table, a);
        let y = extract(table, b.drop_last());
        if table.contains_key(b.last()) {
            assert((x + y).push(table[b.last()]) =~= x + y.push(table[b.last()]));
        }
    }
}

/// Extraction keeps, in order, exactly the entities that hold a component,
/// and replaces each by its component.
pub proof fn lemma_extract_is_filter<C>(table: Map<Entity, C>, es: Seq<Entity>)
    ensures
        extract(table, es) == es.filter(|e: Entity| table.contains_key(e)).map_values(
            |e: Entity| table[e],
        ),
        extract(table, es).len() <= es.len(),
    decreases es.len(),
{
    reveal(Seq::filter);
    let p = |e: Entity| table.contains_key(e);
    let f = |e: Entity| table[e];
    if es.len() > 0 {
        lemma_extract_is_filter(table, es.drop_last());
        let sub = es.drop_last().filter(p);
        if p(es.last()) {
            assert(sub.push(es.last()).map_values(f) =~= sub.map_values(f).push(f(es.last())));
        }
    } else {
        assert(es.filter(p).map_values(f) =~= Seq::<C>::empty());
    }
}

/// Nothing is extracted from an empty sub-mapping.
proof fn lemma_extract_none<C>(table: Map<Entity, C>, es: Seq<Entity>)
    requires
        table == Map::<Entity, C>::empty(),
    ensures
        extract(table, es) == Seq::<C>::empty(),
    decreases es.len(),
{
    if es.len() > 0 {
        lemma_extract_none(table, es.drop_last());
    }
}

impl<C> World<C> {
    /// The entities created so far, in creation order.
    pub closed spec fn created(&self) -> Seq<Entity> {
        self.entities@
    }

    /// The store: for each tag that has a sub-mapping, its entity-to-value map.
    pub closed spec fn store(&self) -> Map<u64, Map<Entity, C>> {
        tables_map(self.components@)
    }

    /// The tags of the sub-mappings, in the order they were created.
    pub closed spec fn type_order(&self) -> Seq<u64> {
        self.components@.map_values(|t: Table<C>| t.tag)
    }

    /// Identifiers are handed out in order from zero, each tag has at most one
    /// sub-mapping, and each entity at most one row in a sub-mapping.
    pub closed spec fn wf(&self) -> bool {
        &&& self.entities@.len() == self.next_entity_id
        &&& forall|i: int| 0 <= i < self.entities@.len() ==> (#[trigger] self.entities@[i]).0 == i
        &&& tables_wf(self.components@)
    }

    /// The components stored under `tag`; empty where the tag has no sub-mapping.
    pub open spec fn table(&self, tag: u64) -> Map<Entity, C> {
        table_in(self.store(), tag)
    }

    /// Every created entity carries its position in creation order as its
    /// identifier, so no two created entities are equal.
    pub proof fn lemma_created_distinct(&self)
        requires
            self.wf(),
        ensures
            forall|i: int| 0 <= i < self.created().len() ==> (#[trigger] self.created()[i]).0 == i,
            forall|i: int, j: int|
                0 <= i < self.created().len() && 0 <= j < self.created().len() && i != j
                    ==> self.created()[i] != self.created()[j],
    {
    }

    pub fn new() -> (w: Self)
        ensures
            w.wf(),
            w.created() == Seq::<Entity>::empty(),
            w.store() == Map::<u64, Map<Entity, C>>::empty(),
    {
        let w = World { next_entity_id: 0, entities: Vec::new(), components: Vec::new() };
        assert(w.store() =~= Map::<u64, Map<Entity, C>>::empty());
        w
    }

    /// Allocates the next identifier and records the new entity.
    pub fn create_entity(&mut self) -> (e: Entity)
        requires
            old(self).wf(),
            old(self).created().len() < u64::MAX,
        ensures
            final(self).wf(),
            e.0 == old(self).created().len(),
            final(self).created() == old(self).created().push(e),
            final(self).store() == old(self).store(),
    {
        let e = Entity(self.next_entity_id);
        self.next_entity_id = self.next_entity_id + 1;
        self.entities.push(e);
        e
    }

    /// The entities created so far, in creation order.
    pub fn all(&self) -> (r: &Vec<Entity>)
        ensures
            r@ == self.created(),
    {
        &self.entities
    }

    /// The position of the sub-mapping for `tag`, if there is one.
    fn find_table(&self, tag: u64) -> (r: Option<usize>)
        requires
            self.wf(),
        ensures
            match r {
                Some(i) => i < self.components@.len() && self.components@[i as int].tag == tag,
                None => !self.store().contains_key(tag),
            },
    {
        let mut i: usize = 0;
        while i < self.components.len()
            invariant
                i <= self.components@.len(),
                forall|k: int| 0 <= k < i ==> self.components@[k].tag != tag,
            decreases self.components@.len() - i,
        {
            if self.components[i].tag == tag {
                return Some(i);
            }
            i = i + 1;
        }
        None
    }

    /// Makes sure that `t` has a sub-mapping, creating an empty one if needed,
    /// and returns its position among the sub-mappings.
    pub fn ensure_components(&mut self, t: u64) -> (r: usize)
        requires
            old(self).wf(),
        ensures
            final(self).wf(),
            final(self).created() == old(self).created(),
            final(self).store() == if old(self).store().contains_key(t) {
                old(self).store()
            } else {
                old(self).store().insert(t, Map::empty())
            },
            final(self).type_order() == if old(self).store().contains_key(t) {
                old(self).type_order()
            } else {
                old(self).type_order().push(t)
            },
            r < final(self).type_order().len(),
            final(self).type_order()[r as int] == t,
    {
        match self.find_table(t) {
            Some(i) => {
                proof {
                    lemma_keyed_at(self.components@, table_key(), table_val(), i as int);
                }
                i
            },
            None => {
                let tbl = Table { tag: t, rows: Vec::new() };
                proof {
                    lemma_keyed_push(self.components@, table_key(), table_val(), tbl);
                    assert(rows_map(tbl.rows@) =~= Map::empty());
                }
                self.components.push(tbl);
                assert(self.type_order() =~= old(self).type_order().push(t));
                self.components.len() - 1
            }
        }
    }
    /// The position of `e`'s row in the sub-mapping at position `ti`, if any.
    fn find_row(&self, ti: usize, e: &Entity) -> (r: Option<usize>)
        requires
            self.wf(),
            ti < self.components@.len(),
        ensures
            match r {
                Some(j) => j < self.components@[ti as int].rows@.len()
                    && self.components@[ti as int].rows@[j as int].entity == *e,
                None => !rows_map(self.components@[ti as int].rows@).contains_key(*e),
            },
    {
        let rows = &self.components[ti].rows;
        let mut j: usize = 0;
        while j < rows.len()
            invariant
                j <= rows@.len(),
                rows@ == self.components@[ti as int].rows@,
                forall|k: int| 0 <= k < j ==> rows@[k].entity != *e,
            decreases rows@.len() - j,
        {
            if rows[j].entity == *e {
                return Some(j);
            }
            j = j + 1;
        }
        None
    }

    /// Stores `c` as the component of type `tag` of `e`, replacing any earlier one.
    pub fn add_component(&mut self, e: Entity, tag: u64, c: C)
        requires
            old(self).wf(),
        ensures
            final(self).wf(),
            final(self).created() == old(self).created(),
            final(self).store() == with_component(old(self).store(), tag, e, c),
    {
        let ghost s0 = self.store();
        let ti = self.ensure_components(tag);
        proof {
            lemma_keyed_at(self.components@, table_key(), table_val(), ti as int);
        }
        let ghost cs = self.components@;
        let ghost rows = self.components@[ti as int].rows@;
        match self.find_row(ti, &e) {
            Some(j) => {
                let row = Row { entity: e, value: c };
                proof {
                    lemma_keyed_update(rows, row_key(), row_val(), j as int, row);
                }
                self.components[ti].rows.set(j, row);
                proof {
                    lemma_keyed_update(cs, table_key(), table_val(), ti as int, self.components@[ti as int]);
                }
            },
            None => {
                let row = Row { entity: e, value: c };
                proof {
                    lemma_keyed_push(rows, row_key(), row_val(), row);
                }
                self.components[ti].rows.push(row);
                proof {
                    lemma_keyed_update(cs, table_key(), table_val(), ti as int, self.components@[ti as int]);
                }
            },
        }
        proof {
            assert(self.components@ =~= cs.update(ti as int, self.components@[ti as int]));
        }
    }
    /// A mutable handle on the component of type `tag` of `e`, or `None` where
    /// `e` holds none. What is written through the handle is what the store
    /// then holds.
    pub fn component_mut(&mut self, tag: u64, e: &Entity) -> (r: Option<&mut C>)
        requires
            old(self).wf(),
        ensures
            final(self).wf(),
            final(self).created() == old(self).created(),
            r.is_some() == old(self).table(tag).contains_key(*e),
            r.is_none() ==> final(self).store() == old(self).store(),
            r.is_some() ==> *r.unwrap() == old(self).table(tag)[*e] && final(self).store()
                == with_component(old(self).store(), tag, *e, *final(r.unwrap())),
    {
        match self.find_table(tag) {
            None => None,
            Some(ti) => {
                proof {
                    lemma_keyed_at(self.components@, table_key(), table_val(), ti as int);
                }
                match self.find_row(ti, e) {
                    None => None,
                    Some(j) => {
                        let ghost cs = self.components@;
                        let ghost rows = self.components@[ti as int].rows@;
                        proof {
                            lemma_keyed_at(rows, row_key(), row_val(), j as int);
                            lemma_set_value(cs, ti as int, j as int);
                        }
                        Some(&mut self.components[ti].rows[j].value)
                    },
                }
            },
        }
    }
}

impl<C: Copy> World<C> {
    /// Copies of the components of type `tag` held by `es`, in the order of
    /// `es`; entities that hold none are skipped.
    pub fn components(&self, tag: u64, es: &[Entity]) -> (r: Vec<C>)
        requires
            self.wf(),
        ensures
            r@ == extract(self.table(tag), es@),
    {
        let mut out: Vec<C> = Vec::new();
        let ghost table = self.table(tag);
        match self.find_table(tag) {
            None => {
                proof {
                    lemma_extract_none(table, es@);
                }
            },
            Some(ti) => {
                proof {
                    lemma_keyed_at(self.components@, table_key(), table_val(), ti as int);
                }
                let mut i: usize = 0;
                while i < es.len()
                    invariant
                        self.wf(),
                        ti < self.components@.len(),
                        table == rows_map(self.components@[ti as int].rows@),
                        i <= es@.len(),
                        out@ == extract(table, es@.subrange(0, i as int)),
                    decreases es@.len() - i,
                {
                    let ghost pre = es@.subrange(0, i as int);
                    match self.find_row(ti, &es[i]) {
                        Some(j) => {
                            proof {
                                lemma_keyed_at(self.components@[ti as int].rows@, row_key(), row_val(), j as int);
                            }
                            out.push(self.components[ti].rows[j].value);
                        },
                        None => {},
                    }
                    assert(es@.subrange(0, i + 1).drop_last() =~= pre);
                    i = i + 1;
                }
                assert(es@.subrange(0, es@.len() as int) =~= es@);
            },
        }
        out
    }

    /// For each contiguous group of at most `group_size` of `es`, in order,
    /// the private bundle of copies of the components of type `tag` that the
    /// group's entities hold.
    pub fn bundles(&self, tag: u64, es: &[Entity], group_size: usize) -> (r: Vec<Vec<C>>)
        requires
            self.wf(),
            group_size > 0,
        ensures
            r@.map_values(|v: Vec<C>| v@) == bundles_of(self.table(tag), es@, group_size as int),
    {
        let groups = partition(es, group_size);
        let ghost gs = groups@.map_values(|v: Vec<Entity>| v@);
        let mut r: Vec<Vec<C>> = Vec::new();
        let mut k: usize = 0;
        while k < groups.len()
            invariant
                self.wf(),
                k <= groups@.len(),
                gs == groups@.map_values(|v: Vec<Entity>| v@),
                r@.len() == k,
                forall|q: int| 0 <= q < k ==> (#[trigger] r@[q])@ == extract(self.table(tag), gs[q]),
            decreases groups@.len() - k,
        {
            let b = self.components(tag, groups[k].as_slice());
            r.push(b);
            k = k + 1;
        }
        assert(r@.map_values(|v: Vec<C>| v@) =~= bundles_of(self.table(tag), es@, group_size as int));
        r
    }
}

} // verus!
