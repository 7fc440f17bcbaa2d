//! The virtual file system that the terminal shows over the entities of an ECS world.
//!
//! The world is seen through a snapshot: one record per entity with the
//! file-system components it carries, the archetypes (their component ids and
//! entities, in the world's order) and the registered component infos.
use vstd::prelude::*;
use crate::text::{
    append_text, chars_of, decimal, decimal_text, split_on, split_str, string_of, text_eq, text_is,
    texts, views,
};


verus! {

broadcast use vstd::seq_lib::group_seq_properties;

// ---------------------------------------------------------------------------
// Entities and components
// ---------------------------------------------------------------------------

/// An entity of the world: its index and generation.
#[derive(Clone, Copy, PartialEq, Eq, Structural, Debug, Hash)]
pub struct EntityId {
    pub index: u32,
    pub generation: u32,
}

impl EntityId {
    /// The placeholder entity (the largest index, the first generation).
    pub fn placeholder() -> (e: EntityId)
        ensures
            e.index == 0xFFFF_FFFE,
            e.generation == 0,
    {
        EntityId { index: 0xFFFF_FFFE, generation: 0 }
    }
}

/// The name under which an entity appears in the file system.
#[derive(Clone, Debug)]
pub struct VFSName {
    pub name: String,
}

/// The entity that `..` leads to.
#[derive(Clone, Copy, Debug)]
pub struct VFSParent {
    pub parent: EntityId,
}

/// Children listed explicitly.
#[derive(Clone, Debug, Default)]
pub struct VFSChildren {
    pub children: Vec<EntityId>,
}

/// The component ids and entities of an archetype, in the world's order.
#[derive(Clone, Debug)]
pub struct ArchetypeRecord {
    pub components: Vec<usize>,
    pub entities: Vec<EntityId>,
}

/// A condition on the set of components of an archetype.
#[derive(Debug)]
pub enum DynamicFilter {
    Has(usize),
    And(Vec<DynamicFilter>),
    Or(Vec<DynamicFilter>),
    Not(Box<DynamicFilter>),
    Never,
}

/// Children given by a filter: every entity of every archetype that the filter matches.
#[derive(Debug)]
pub struct VFSQueryChildren {
    pub filter: DynamicFilter,
}

/// Text content of a file.
#[derive(Clone, Debug)]
pub struct Text {
    pub text: String,
}

/// Binary content of a file.
#[derive(Clone, Debug)]
pub struct Binary {
    pub binary: Vec<u8>,
}

// ---------------------------------------------------------------------------
// Filters
// ---------------------------------------------------------------------------

impl DynamicFilter {
    /// Whether the filter accepts an archetype with the given component ids.
    pub open spec fn accepts(self, components: Seq<usize>) -> bool
        decreases self,
    {
        match self {
            DynamicFilter::Has(id) => components.contains(id),
            DynamicFilter::And(fs) => all_accept(fs@, components),
            DynamicFilter::Or(fs) => any_accepts(fs@, components),
            DynamicFilter::Not(f) => !f.accepts(components),
            DynamicFilter::Never => false,
        }
    }

    /// Whether two filters have the same form: the same variants, ids and
    /// lists, item by item.
    pub open spec fn same_form(self, other: DynamicFilter) -> bool
        decreases self,
    {
        match (self, other) {
            (DynamicFilter::Has(a), DynamicFilter::Has(b)) => a == b,
            (DynamicFilter::And(fs), DynamicFilter::And(gs)) => all_same_form(fs@, gs@),
            (DynamicFilter::Or(fs), DynamicFilter::Or(gs)) => all_same_form(fs@, gs@),
            (DynamicFilter::Not(f), DynamicFilter::Not(g)) => f.same_form(*g),
            (DynamicFilter::Never, DynamicFilter::Never) => true,
            _ => false,
        }
    }

    /// The filter for a component: `Has` its id if the world knows it, else `Never`.
    pub fn for_component(id: Option<usize>) -> (f: DynamicFilter)
        ensures
            f == (match id {
                Some(i) => DynamicFilter::Has(i),
                None => DynamicFilter::Never,
            }),
    {
        match id {
            Some(i) => DynamicFilter::Has(i),
            None => DynamicFilter::Never,
        }
    }

    /// Both filters (`&`).
    pub fn and(self, rhs: DynamicFilter) -> (f: DynamicFilter)
        ensures
            f matches DynamicFilter::And(fs) && fs@ == seq![self, rhs],
            forall|c: Seq<usize>|
                #[trigger] f.accepts(c) == (self.accepts(c) && rhs.accepts(c)),
    {
        let mut fs: Vec<DynamicFilter> = Vec::new();
        fs.push(self);
        fs.push(rhs);
        proof {
            assert(fs@ =~= seq![self, rhs]);
            assert(fs@.drop_first().drop_first() =~= Seq::<DynamicFilter>::empty());
            assert forall|c: Seq<usize>|
                #[trigger] DynamicFilter::And(fs).accepts(c) == (self.accepts(c) && rhs.accepts(c)) by {
                let t = fs@;
                assert(t[0] == self);
                assert(t.drop_first()[0] == rhs);
                assert(t.drop_first().drop_first().len() == 0);
                assert(all_accept(t.drop_first().drop_first(), c) == all_accept(Seq::<DynamicFilter>::empty(), c));
                assert(all_accept(t.drop_first(), c) == (rhs.accepts(c) && all_accept(t.drop_first().drop_first(), c)));
                assert(all_accept(t, c) == (self.accepts(c) && all_accept(t.drop_first(), c)));
                assert(DynamicFilter::And(fs).accepts(c) == all_accept(t, c));
            }
        }
        DynamicFilter::And(fs)
    }

    /// Either filter (`|`).
    pub fn or(self, rhs: DynamicFilter) -> (f: DynamicFilter)
        ensures
            f matches DynamicFilter::Or(fs) && fs@ == seq![self, rhs],
            forall|c: Seq<usize>|
                #[trigger] f.accepts(c) == (self.accepts(c) || rhs.accepts(c)),
    {
        let mut fs: Vec<DynamicFilter> = Vec::new();
        fs.push(self);
        fs.push(rhs);
        proof {
            assert(fs@ =~= seq![self, rhs]);
            assert(fs@.drop_first().drop_first() =~= Seq::<DynamicFilter>::empty());
            assert forall|c: Seq<usize>|
                #[trigger] DynamicFilter::Or(fs).accepts(c) == (self.accepts(c) || rhs.accepts(c)) by {
                let t = fs@;
                assert(t[0] == self);
                assert(t.drop_first()[0] == rhs);
                assert(t.drop_first().drop_first().len() == 0);
                assert(any_accepts(t.drop_first().drop_first(), c) == any_accepts(Seq::<DynamicFilter>::empty(), c));
                assert(any_accepts(t.drop_first(), c) == (rhs.accepts(c) || any_accepts(t.drop_first().drop_first(), c)));
                assert(any_accepts(t, c) == (self.accepts(c) || any_accepts(t.drop_first(), c)));
                assert(DynamicFilter::Or(fs).accepts(c) == any_accepts(t, c));
            }
        }
        DynamicFilter::Or(fs)
    }

    /// The negation of a filter: a negation unwrapped, anything else wrapped.
    pub open spec fn negation(self) -> DynamicFilter {
        match self {
            DynamicFilter::Not(inner) => *inner,
            _ => DynamicFilter::Not(Box::new(self)),
        }
    }

    /// Negating twice accepts what the filter accepts.
    pub proof fn law_double_negation(self, components: Seq<usize>)
        ensures
            self.negation().negation().accepts(components) == self.accepts(components),
            self.negation().accepts(components) == !self.accepts(components),
    {
    }

    /// The negation (`!`): unwraps a negation, wraps anything else.
    pub fn negate(self) -> (f: DynamicFilter)
        ensures
            f == self.negation(),
            forall|c: Seq<usize>| #[trigger] f.accepts(c) == !self.accepts(c),
    {
        match self {
            DynamicFilter::Not(inner) => *inner,
            _ => DynamicFilter::Not(Box::new(self)),
        }
    }

    /// A copy of the filter (`Clone`): the same filter, rebuilt, accepting
    /// what it accepts.
    pub fn duplicate(&self) -> (r: DynamicFilter)
        ensures
            r.same_form(*self),
            forall|c: Seq<usize>| #[trigger] r.accepts(c) == self.accepts(c),
        decreases self,
    {
        match self {
            DynamicFilter::Has(id) => {
                let r = DynamicFilter::Has(*id);
                assert(r.same_form(*self));
                assert forall|c: Seq<usize>| #[trigger] r.accepts(c) == self.accepts(c) by {
                    assert(r.accepts(c) == c.contains(*id));
                }
                r
            },
            DynamicFilter::And(fs) => {
                let mut gs: Vec<DynamicFilter> = Vec::new();
                let mut i: usize = 0;
                proof {
                    assert(decreases_to!(*self => *fs));
                    assert(decreases_to!(*fs => fs@));
                }
                while i < fs.len()
                    invariant
                        i <= fs.len(),
                        gs@.len() == i,
                        decreases_to!(*self => fs@),
                        forall|k: int, c: Seq<usize>|
                            0 <= k < i ==> #[trigger] gs@[k].accepts(c) == fs@[k].accepts(c),
                        forall|k: int| 0 <= k < i ==> #[trigger] gs@[k].same_form(fs@[k]),
                    decreases fs.len() - i,
                {
                    proof {
                        assert(decreases_to!(fs@ => fs@[i as int]));
                    }
                    let g = fs[i].duplicate();
                    gs.push(g);
                    i += 1;
                }
                proof {
                    assert forall|c: Seq<usize>| #[trigger] DynamicFilter::And(gs).accepts(c)
                        == self.accepts(c) by {
                        lemma_same_acceptance(gs@, fs@, c);
                    }
                    lemma_all_same_form(gs@, fs@);
                }
                DynamicFilter::And(gs)
            },
            DynamicFilter::Or(fs) => {
                let mut gs: Vec<DynamicFilter> = Vec::new();
                let mut i: usize = 0;
                proof {
                    assert(decreases_to!(*self => *fs));
                    assert(decreases_to!(*fs => fs@));
                }
                while i < fs.len()
                    invariant
                        i <= fs.len(),
                        gs@.len() == i,
                        decreases_to!(*self => fs@),
                        forall|k: int, c: Seq<usize>|
                            0 <= k < i ==> #[trigger] gs@[k].accepts(c) == fs@[k].accepts(c),
                        forall|k: int| 0 <= k < i ==> #[trigger] gs@[k].same_form(fs@[k]),
                    decreases fs.len() - i,
                {
                    proof {
                        assert(decreases_to!(fs@ => fs@[i as int]));
                    }
                    let g = fs[i].duplicate();
                    gs.push(g);
                    i += 1;
                }
                proof {
                    assert forall|c: Seq<usize>| #[trigger] DynamicFilter::Or(gs).accepts(c)
                        == self.accepts(c) by {
                        lemma_same_acceptance(gs@, fs@, c);
                    }
                    lemma_all_same_form(gs@, fs@);
                }
                DynamicFilter::Or(gs)
            },
            DynamicFilter::Not(inner) => {
                proof {
                    assert(decreases_to!(*self => *inner));
                }
                let d = inner.duplicate();
                let r = DynamicFilter::Not(Box::new(d));
                assert(r.same_form(*self));
                assert forall|c: Seq<usize>| #[trigger] r.accepts(c) == self.accepts(c) by {
                    assert(d.accepts(c) == inner.accepts(c));
                }
                r
            },
            DynamicFilter::Never => {
                let r = DynamicFilter::Never;
                assert(r.same_form(*self));
                assert forall|c: Seq<usize>| #[trigger] r.accepts(c) == self.accepts(c) by {}
                r
            },
        }
    }

    /// Whether the filter accepts the archetype.
    pub fn matches_archetype(&self, archetype: &ArchetypeRecord) -> (r: bool)
        ensures
            r == self.accepts(archetype.components@),
        decreases self,
    {
        match self {
            DynamicFilter::Has(id) => contains_id(&archetype.components, *id),
            DynamicFilter::And(fs) => {
                let mut i: usize = 0;
                proof {
                    assert(decreases_to!(*self => *fs));
                    assert(decreases_to!(*fs => fs@));
                }
                while i < fs.len()
                    invariant
                        i <= fs.len(),
                        self.accepts(archetype.components@) == all_accept(fs@, archetype.components@),
                        decreases_to!(*self => fs@),
                        all_accept(fs@, archetype.components@) == all_accept(
                            fs@.skip(i as int),
                            archetype.components@,
                        ),
                    decreases fs.len() - i,
                {
                    proof {
                        assert(fs@.skip(i as int).drop_first() =~= fs@.skip(i + 1));
                        assert(fs@.skip(i as int)[0] == fs@[i as int]);
                        assert(decreases_to!(fs@ => fs@[i as int]));
                    }
                    if !fs[i].matches_archetype(archetype) {
                        return false;
                    }
                    i += 1;
                }
                true
            },
            DynamicFilter::Or(fs) => {
                let mut i: usize = 0;
                proof {
                    assert(decreases_to!(*self => *fs));
                    assert(decreases_to!(*fs => fs@));
                }
                while i < fs.len()
                    invariant
                        i <= fs.len(),
                        self.accepts(archetype.components@) == any_accepts(fs@, archetype.components@),
                        decreases_to!(*self => fs@),
                        any_accepts(fs@, archetype.components@) == any_accepts(
                            fs@.skip(i as int),
                            archetype.components@,
                        ),
                    decreases fs.len() - i,
                {
                    proof {
                        assert(fs@.skip(i as int).drop_first() =~= fs@.skip(i + 1));
                        assert(fs@.skip(i as int)[0] == fs@[i as int]);
                        assert(decreases_to!(fs@ => fs@[i as int]));
                    }
                    if fs[i].matches_archetype(archetype) {
                        return true;
                    }
                    i += 1;
                }
                false
            },
            DynamicFilter::Not(f) => !f.matches_archetype(archetype),
            DynamicFilter::Never => false,
        }
    }
}

/// Whether two lists of filters have the same length and forms, item by item.
pub open spec fn all_same_form(fs: Seq<DynamicFilter>, gs: Seq<DynamicFilter>) -> bool
    decreases fs,
{
    if fs.len() == 0 {
        gs.len() == 0
    } else {
        gs.len() > 0 && fs[0].same_form(gs[0]) && all_same_form(fs.drop_first(), gs.drop_first())
    }
}

/// Whether every filter of a list accepts the components.
pub open spec fn all_accept(fs: Seq<DynamicFilter>, components: Seq<usize>) -> bool
    decreases fs,
{
    if fs.len() == 0 {
        true
    } else {
        fs[0].accepts(components) && all_accept(fs.drop_first(), components)
    }
}

/// Whether some filter of a list accepts the components.
pub open spec fn any_accepts(fs: Seq<DynamicFilter>, components: Seq<usize>) -> bool
    decreases fs,
{
    if fs.len() == 0 {
        false
    } else {
        fs[0].accepts(components) || any_accepts(fs.drop_first(), components)
    }
}

/// Two lists of filters that accept alike, filter by filter, accept alike
/// together, for all and for any.
proof fn lemma_same_acceptance(a: Seq<DynamicFilter>, b: Seq<DynamicFilter>, c: Seq<usize>)
    requires
        a.len() == b.len(),
        forall|k: int, d: Seq<usize>| 0 <= k < a.len() ==> #[trigger] a[k].accepts(d) == b[k].accepts(d),
    ensures
        all_accept(a, c) == all_accept(b, c),
        any_accepts(a, c) == any_accepts(b, c),
    decreases a.len(),
{
    if a.len() > 0 {
        assert(a[0].accepts(c) == b[0].accepts(c));
        assert forall|k: int, d: Seq<usize>| 0 <= k < a.drop_first().len() implies #[trigger] a.drop_first()[k].accepts(d)
            == b.drop_first()[k].accepts(d) by {
            assert(a[k + 1].accepts(d) == b[k + 1].accepts(d));
        }
        lemma_same_acceptance(a.drop_first(), b.drop_first(), c);
    }
}

proof fn lemma_all_same_form(a: Seq<DynamicFilter>, b: Seq<DynamicFilter>)
    requires
        a.len() == b.len(),
        forall|k: int| 0 <= k < a.len() ==> #[trigger] a[k].same_form(b[k]),
    ensures
        all_same_form(a, b),
    decreases a.len(),
{
    if a.len() > 0 {
        assert(a[0].same_form(b[0]));
        assert forall|k: int| 0 <= k < a.drop_first().len() implies #[trigger] a.drop_first()[k].same_form(
            b.drop_first()[k],
        ) by {
            assert(a[k + 1].same_form(b[k + 1]));
        }
        lemma_all_same_form(a.drop_first(), b.drop_first());
    }
}

impl Clone for DynamicFilter {
    fn clone(&self) -> (r: Self)
        ensures
            r.same_form(*self),
            forall|c: Seq<usize>| #[trigger] r.accepts(c) == self.accepts(c),
    {
        self.duplicate()
    }
}

fn contains_id(ids: &Vec<usize>, id: usize) -> (r: bool)
    ensures
        r == ids@.contains(id),
{
    let mut i: usize = 0;
    while i < ids.len()
        invariant
            i <= ids.len(),
            forall|k: int| 0 <= k < i ==> ids@[k] != id,
        decreases ids.len() - i,
    {
        if ids[i] == id {
            return true;
        }
        i += 1;
    }
    false
}


// ---------------------------------------------------------------------------
// The snapshot
// ---------------------------------------------------------------------------

/// The name and size that the world registers for a component id.
#[derive(Clone, Debug)]
pub struct ComponentInfo {
    pub id: usize,
    pub name: String,
    pub size: usize,
}

/// One entity with the file-system components it carries, and the index of
/// the archetype that stores it (`None` where the world has no location for it).
#[derive(Debug)]
pub struct EntityRecord {
    pub entity: EntityId,
    pub name: Option<VFSName>,
    pub parent: Option<VFSParent>,
    pub children: Option<VFSChildren>,
    pub query_children: Option<VFSQueryChildren>,
    pub text: Option<Text>,
    pub binary: Option<Binary>,
    pub archetype: Option<usize>,
}

/// The file system over a snapshot of the world.
#[derive(Debug)]
pub struct ECSFileSystem {
    pub records: Vec<EntityRecord>,
    pub archetypes: Vec<ArchetypeRecord>,
    pub components: Vec<ComponentInfo>,
}

/// The position of the first record of `e`.
pub open spec fn first_record(rs: Seq<EntityRecord>, e: EntityId) -> Option<int>
    decreases rs.len(),
{
    if rs.len() == 0 {
        None
    } else if rs[0].entity == e {
        Some(0)
    } else {
        match first_record(rs.drop_first(), e) {
            Some(i) => Some(i + 1),
            None => None,
        }
    }
}

proof fn lemma_first_record_found(rs: Seq<EntityRecord>, e: EntityId, i: int)
    requires
        0 <= i < rs.len(),
        rs[i].entity == e,
        forall|k: int| 0 <= k < i ==> rs[k].entity != e,
    ensures
        first_record(rs, e) == Some(i),
    decreases i,
{
    if i > 0 {
        lemma_first_record_found(rs.drop_first(), e, i - 1);
    }
}

proof fn lemma_first_record_absent(rs: Seq<EntityRecord>, e: EntityId)
    requires
        forall|k: int| 0 <= k < rs.len() ==> rs[k].entity != e,
    ensures
        first_record(rs, e) is None,
    decreases rs.len(),
{
    if rs.len() > 0 {
        lemma_first_record_absent(rs.drop_first(), e);
    }
}

proof fn lemma_first_record_range(rs: Seq<EntityRecord>, e: EntityId)
    ensures
        first_record(rs, e) matches Some(i) ==> 0 <= i < rs.len() && rs[i].entity == e,
    decreases rs.len(),
{
    if rs.len() > 0 {
        lemma_first_record_range(rs.drop_first(), e);
    }
}

/// The size of the first info registered for `id`.
pub open spec fn info_size(infos: Seq<ComponentInfo>, id: usize) -> Option<nat>
    decreases infos.len(),
{
    if infos.len() == 0 {
        None
    } else if infos[0].id == id {
        Some(infos[0].size as nat)
    } else {
        info_size(infos.drop_first(), id)
    }
}

/// The name of the first info registered for `id`.
pub open spec fn info_name(infos: Seq<ComponentInfo>, id: usize) -> Option<Seq<char>>
    decreases infos.len(),
{
    if infos.len() == 0 {
        None
    } else if infos[0].id == id {
        Some(infos[0].name@)
    } else {
        info_name(infos.drop_first(), id)
    }
}

/// The total size of the components with an info.
pub open spec fn sizes_of(ids: Seq<usize>, infos: Seq<ComponentInfo>) -> nat
    decreases ids.len(),
{
    if ids.len() == 0 {
        0
    } else {
        sizes_of(ids.drop_last(), infos) + match info_size(infos, ids.last()) {
            Some(n) => n,
            None => 0,
        }
    }
}

/// The entities of the archetypes that the filter accepts, archetype by archetype.
pub open spec fn query_entities(archs: Seq<ArchetypeRecord>, f: DynamicFilter) -> Seq<EntityId>
    decreases archs.len(),
{
    if archs.len() == 0 {
        Seq::empty()
    } else {
        let prev = query_entities(archs.drop_last(), f);
        if f.accepts(archs.last().components@) {
            prev + archs.last().entities@
        } else {
            prev
        }
    }
}

/// All entities of all archetypes.
pub open spec fn archetype_entities(archs: Seq<ArchetypeRecord>) -> Seq<EntityId>
    decreases archs.len(),
{
    if archs.len() == 0 {
        Seq::empty()
    } else {
        archetype_entities(archs.drop_last()) + archs.last().entities@
    }
}

/// The explicit children of a record.
pub open spec fn listed(r: EntityRecord) -> Seq<EntityId> {
    match r.children {
        Some(c) => c.children@,
        None => Seq::empty(),
    }
}

/// All explicit children of all records.
pub open spec fn listed_entities(rs: Seq<EntityRecord>) -> Seq<EntityId>
    decreases rs.len(),
{
    if rs.len() == 0 {
        Seq::empty()
    } else {
        listed_entities(rs.drop_last()) + listed(rs.last())
    }
}

/// The own size of a record: the sizes of the components of its archetype.
pub open spec fn record_size(r: EntityRecord, archs: Seq<ArchetypeRecord>, infos: Seq<
    ComponentInfo,
>) -> nat {
    match r.archetype {
        Some(a) => if a < archs.len() {
            sizes_of(archs[a as int].components@, infos)
        } else {
            0
        },
        None => 0,
    }
}

/// The sum of the own sizes of the records whose entity is not in `visited`.
pub open spec fn unvisited_size(
    rs: Seq<EntityRecord>,
    archs: Seq<ArchetypeRecord>,
    infos: Seq<ComponentInfo>,
    visited: Set<EntityId>,
) -> nat
    decreases rs.len(),
{
    if rs.len() == 0 {
        0
    } else {
        unvisited_size(rs.drop_last(), archs, infos, visited) + if visited.contains(
            rs.last().entity,
        ) {
            0
        } else {
            record_size(rs.last(), archs, infos)
        }
    }
}


/// The last `::`-separated segment of a name, as `split("::").last()` gives it,
/// scanning from `i` with the current segment starting at `start`.
pub open spec fn segment_after(s: Seq<char>, start: int, i: int) -> Seq<char>
    recommends
        0 <= start <= i <= s.len(),
    decreases s.len() - i,
{
    if i + 1 >= s.len() {
        s.subrange(start, s.len() as int)
    } else if s[i] == ':' && s[i + 1] == ':' {
        segment_after(s, i + 2, i + 2)
    } else {
        segment_after(s, start, i + 1)
    }
}

/// The last `::`-separated segment of a name.
pub open spec fn last_segment(s: Seq<char>) -> Seq<char> {
    segment_after(s, 0, 0)
}

/// The last segments of the names of the components with an info.
pub open spec fn short_names(ids: Seq<usize>, infos: Seq<ComponentInfo>) -> Seq<Seq<char>>
    decreases ids.len(),
{
    if ids.len() == 0 {
        Seq::empty()
    } else {
        let prev = short_names(ids.drop_last(), infos);
        match info_name(infos, ids.last()) {
            Some(n) => prev.push(last_segment(n)),
            None => prev,
        }
    }
}

impl ECSFileSystem {
    /// The first record of `e`.
    pub open spec fn record_of(self, e: EntityId) -> Option<EntityRecord> {
        match first_record(self.records@, e) {
            Some(i) => Some(self.records@[i]),
            None => None,
        }
    }

    /// The parent of `e` (its `VFSParent`).
    pub open spec fn parent_of(self, e: EntityId) -> Option<EntityId> {
        match self.record_of(e) {
            Some(r) => match r.parent {
                Some(p) => Some(p.parent),
                None => None,
            },
            None => None,
        }
    }

    /// The name of `e` (its `VFSName`).
    pub open spec fn name_of(self, e: EntityId) -> Option<Seq<char>> {
        match self.record_of(e) {
            Some(r) => match r.name {
                Some(n) => Some(n.name@),
                None => None,
            },
            None => None,
        }
    }

    /// The children of `e`: its listed children, then the entities of every
    /// archetype that its query filter accepts.
    pub open spec fn children_of(self, e: EntityId) -> Seq<EntityId> {
        match self.record_of(e) {
            Some(r) => listed(r) + match r.query_children {
                Some(q) => query_entities(self.archetypes@, q.filter),
                None => Seq::empty(),
            },
            None => Seq::empty(),
        }
    }

    /// The own size of `e`: the sizes of the registered components of its archetype.
    pub open spec fn own_size(self, e: EntityId) -> nat {
        match self.record_of(e) {
            Some(r) => record_size(r, self.archetypes@, self.components@),
            None => 0,
        }
    }

    /// The short names of the registered components of the archetype of `e`.
    pub open spec fn component_names_of(self, e: EntityId) -> Seq<Seq<char>> {
        match self.record_of(e) {
            Some(r) => match r.archetype {
                Some(a) => if a < self.archetypes@.len() {
                    short_names(self.archetypes@[a as int].components@, self.components@)
                } else {
                    Seq::empty()
                },
                None => Seq::empty(),
            },
            None => Seq::empty(),
        }
    }

    /// The name that `ls` shows for `e`: its `VFSName`, else `{index}v{generation}`.
    pub open spec fn display_name(self, e: EntityId) -> Seq<char> {
        match self.name_of(e) {
            Some(n) => n,
            None => decimal(e.index as nat) + seq!['v'] + decimal(e.generation as nat),
        }
    }

    /// The first of `kids` named `name`.
    pub open spec fn child_named(self, kids: Seq<EntityId>, name: Seq<char>) -> Option<EntityId>
        decreases kids.len(),
    {
        if kids.len() == 0 {
            None
        } else if self.name_of(kids[0]) == Some(name) {
            Some(kids[0])
        } else {
            self.child_named(kids.drop_first(), name)
        }
    }

    /// One step of a path walk from `cur`: an empty part or `.` stays, `..` goes to
    /// the parent where there is one, a name goes to the first child of that name.
    pub open spec fn step(self, cur: EntityId, part: Seq<char>) -> Option<EntityId> {
        if part.len() == 0 || part == seq!['.'] {
            Some(cur)
        } else if part == seq!['.', '.'] {
            match self.parent_of(cur) {
                Some(p) => Some(p),
                None => Some(cur),
            }
        } else {
            self.child_named(self.children_of(cur), part)
        }
    }

    /// The entity reached by walking `parts` from `cur`.
    pub open spec fn walk(self, cur: EntityId, parts: Seq<Seq<char>>) -> Option<EntityId>
        decreases parts.len(),
    {
        if parts.len() == 0 {
            Some(cur)
        } else {
            match self.step(cur, parts[0]) {
                Some(n) => self.walk(n, parts.drop_first()),
                None => None,
            }
        }
    }

    /// The entity that `path` (its `/`-separated parts) leads to from `root`.
    pub open spec fn resolve(self, root: EntityId, path: Seq<char>) -> Option<EntityId> {
        self.walk(root, split_on(path, '/'))
    }

    /// Every entity that can be a child.
    pub open spec fn universe(self) -> Set<EntityId> {
        listed_entities(self.records@).to_set() + archetype_entities(self.archetypes@).to_set()
    }

    /// The size of `e` counted from `visited` (a depth-first walk that counts
    /// every entity once): nothing for an entity already visited, the sizes
    /// of its children for a directory, its own size for a file; with the
    /// visited set afterwards.
    pub open spec fn size_from(self, e: EntityId, visited: Set<EntityId>) -> (nat, Set<EntityId>)
        decreases self.universe().insert(e).difference(visited).len(), 0nat,
    {
        if visited.contains(e) {
            (0, visited)
        } else {
            let v1 = visited.insert(e);
            proof {
                self.lemma_universe_finite();
                let u = self.universe();
                assert(u.difference(v1).subset_of(u.insert(e).difference(visited).remove(e)));
                vstd::set_lib::lemma_len_subset(
                    u.difference(v1),
                    u.insert(e).difference(visited).remove(e),
                );
            }
            if self.children_of(e).len() > 0 {
                self.sizes_from(e, 0, v1)
            } else {
                (self.own_size(e), v1)
            }
        }
    }

    /// The sizes of the children of `p` from the `i`-th on, counted from `visited`.
    pub open spec fn sizes_from(self, p: EntityId, i: int, visited: Set<EntityId>) -> (
        nat,
        Set<EntityId>,
    )
        decreases self.universe().difference(visited).len(), self.children_of(p).len() - i + 1,
    {
        let kids = self.children_of(p);
        if i < 0 || i >= kids.len() {
            (0, visited)
        } else {
            proof {
                self.lemma_universe_finite();
                self.lemma_children_in_universe(p);
                assert(self.universe().insert(kids[i]) =~= self.universe());
            }
            let (a, v2) = self.size_from(kids[i], visited);
            proof {
                let u = self.universe();
                assert(u.difference(v2.union(visited)).subset_of(u.difference(visited)));
                vstd::set_lib::lemma_len_subset(
                    u.difference(v2.union(visited)),
                    u.difference(visited),
                );
            }
            let (b, v3) = self.sizes_from(p, i + 1, v2.union(visited));
            (a + b, v3)
        }
    }

    /// The size of `e` as `compute_size` gives it.
    pub open spec fn size_of(self, e: EntityId) -> nat {
        self.size_from(e, Set::empty()).0
    }

    /// Whether the snapshot is one that `compute_size` can sum without overflow:
    /// the own sizes of all records together fit in a `usize`.
    pub open spec fn wf(self) -> bool {
        unvisited_size(self.records@, self.archetypes@, self.components@, Set::empty())
            <= usize::MAX
    }

    /// The universe is finite.
    pub proof fn lemma_universe_finite(self)
        ensures
            self.universe().finite(),
    {
        vstd::seq_lib::seq_to_set_is_finite(listed_entities(self.records@));
        vstd::seq_lib::seq_to_set_is_finite(archetype_entities(self.archetypes@));
    }

    /// Every child of every entity is in the universe.
    pub proof fn lemma_children_in_universe(self, e: EntityId)
        ensures
            forall|k: int|
                0 <= k < self.children_of(e).len() ==> self.universe().contains(
                    #[trigger] self.children_of(e)[k],
                ),
    {
        lemma_first_record_range(self.records@, e);
        match first_record(self.records@, e) {
            Some(i) => {
                let r = self.records@[i];
                lemma_listed_in(self.records@, i);
                match r.query_children {
                    Some(q) => {
                        lemma_query_in(self.archetypes@, q.filter);
                        let kids = self.children_of(e);
                        assert forall|k: int| 0 <= k < kids.len() implies self.universe().contains(
                            #[trigger] kids[k],
                        ) by {
                            if k < listed(r).len() {
                                assert(kids[k] == listed(r)[k]);
                                assert(listed_entities(self.records@).contains(kids[k]));
                            } else {
                                let q_ents = query_entities(self.archetypes@, q.filter);
                                assert(kids[k] == q_ents[k - listed(r).len()]);
                                assert(archetype_entities(self.archetypes@).contains(kids[k]));
                            }
                        }
                    },
                    None => {
                        let kids = self.children_of(e);
                        assert forall|k: int| 0 <= k < kids.len() implies self.universe().contains(
                            #[trigger] kids[k],
                        ) by {
                            assert(kids[k] == listed(r)[k]);
                            assert(listed_entities(self.records@).contains(kids[k]));
                        }
                    },
                }
            },
            None => {},
        }
    }
}

proof fn lemma_listed_in(rs: Seq<EntityRecord>, i: int)
    requires
        0 <= i < rs.len(),
    ensures
        forall|k: int|
            0 <= k < listed(rs[i]).len() ==> listed_entities(rs).contains(#[trigger] listed(rs[i])[k]),
    decreases rs.len(),
{
    let all = listed_entities(rs);
    let prev = listed_entities(rs.drop_last());
    if i < rs.len() - 1 {
        lemma_listed_in(rs.drop_last(), i);
        assert(rs.drop_last()[i] == rs[i]);
        assert forall|k: int| 0 <= k < listed(rs[i]).len() implies all.contains(
            #[trigger] listed(rs[i])[k],
        ) by {
            let x = listed(rs[i])[k];
            assert(prev.contains(x));
            let j = choose|j: int| 0 <= j < prev.len() && prev[j] == x;
            assert(all[j] == x);
        }
    } else {
        assert forall|k: int| 0 <= k < listed(rs[i]).len() implies all.contains(
            #[trigger] listed(rs[i])[k],
        ) by {
            assert(all[prev.len() + k] == listed(rs[i])[k]);
        }
    }
}

proof fn lemma_query_in(archs: Seq<ArchetypeRecord>, f: DynamicFilter)
    ensures
        forall|k: int|
            0 <= k < query_entities(archs, f).len() ==> archetype_entities(archs).contains(
                #[trigger] query_entities(archs, f)[k],
            ),
    decreases archs.len(),
{
    if archs.len() > 0 {
        lemma_query_in(archs.drop_last(), f);
        let q = query_entities(archs, f);
        let qp = query_entities(archs.drop_last(), f);
        let all = archetype_entities(archs);
        let prev = archetype_entities(archs.drop_last());
        assert forall|k: int| 0 <= k < q.len() implies all.contains(#[trigger] q[k]) by {
            if k < qp.len() {
                assert(q[k] == qp[k]);
                assert(prev.contains(qp[k]));
                let j = choose|j: int| 0 <= j < prev.len() && prev[j] == qp[k];
                assert(all[j] == qp[k]);
            } else {
                assert(q[k] == archs.last().entities@[k - qp.len()]);
                assert(all[prev.len() + k - qp.len()] == q[k]);
            }
        }
    }
}


proof fn lemma_unvisited_mono(
    rs: Seq<EntityRecord>,
    archs: Seq<ArchetypeRecord>,
    infos: Seq<ComponentInfo>,
    v: Set<EntityId>,
    w: Set<EntityId>,
)
    requires
        v.subset_of(w),
    ensures
        unvisited_size(rs, archs, infos, w) <= unvisited_size(rs, archs, infos, v),
    decreases rs.len(),
{
    if rs.len() > 0 {
        lemma_unvisited_mono(rs.drop_last(), archs, infos, v, w);
    }
}

proof fn lemma_unvisited_found(
    rs: Seq<EntityRecord>,
    archs: Seq<ArchetypeRecord>,
    infos: Seq<ComponentInfo>,
    v: Set<EntityId>,
    e: EntityId,
    i: int,
)
    requires
        0 <= i < rs.len(),
        rs[i].entity == e,
        !v.contains(e),
    ensures
        unvisited_size(rs, archs, infos, v.insert(e)) + record_size(rs[i], archs, infos)
            <= unvisited_size(rs, archs, infos, v),
    decreases rs.len(),
{
    let init = rs.drop_last();
    if i == rs.len() - 1 {
        lemma_unvisited_mono(init, archs, infos, v, v.insert(e));
    } else {
        assert(init[i] == rs[i]);
        lemma_unvisited_found(init, archs, infos, v, e, i);
    }
}

proof fn lemma_unvisited_le_all(
    rs: Seq<EntityRecord>,
    archs: Seq<ArchetypeRecord>,
    infos: Seq<ComponentInfo>,
    v: Set<EntityId>,
)
    ensures
        unvisited_size(rs, archs, infos, v) <= unvisited_size(rs, archs, infos, Set::empty()),
    decreases rs.len(),
{
    if rs.len() > 0 {
        lemma_unvisited_le_all(rs.drop_last(), archs, infos, v);
    }
}

proof fn lemma_sizes_of_prefix(ids: Seq<usize>, infos: Seq<ComponentInfo>, k: int)
    requires
        0 <= k <= ids.len(),
    ensures
        sizes_of(ids.take(k), infos) <= sizes_of(ids, infos),
    decreases ids.len(),
{
    if k < ids.len() {
        assert(ids.drop_last().take(k) =~= ids.take(k));
        lemma_sizes_of_prefix(ids.drop_last(), infos, k);
    } else {
        assert(ids.take(k) =~= ids);
    }
}

impl ECSFileSystem {
    /// Visiting `e` takes at least its own size off what is left to visit.
    pub proof fn lemma_own_size_record(self, e: EntityId, v: Set<EntityId>)
        requires
            !v.contains(e),
        ensures
            unvisited_size(self.records@, self.archetypes@, self.components@, v.insert(e))
                + self.own_size(e) <= unvisited_size(
                self.records@,
                self.archetypes@,
                self.components@,
                v,
            ),
    {
        let rs = self.records@;
        lemma_first_record_range(rs, e);
        match first_record(rs, e) {
            Some(i) => {
                lemma_unvisited_found(rs, self.archetypes@, self.components@, v, e, i);
            },
            None => {
                lemma_unvisited_mono(rs, self.archetypes@, self.components@, v, v.insert(e));
            },
        }
    }

    /// The depth-first count only adds to the visited set, and what it counts is
    /// covered by the own sizes of the records it newly visits.
    pub proof fn lemma_size_from_bound(self, e: EntityId, v: Set<EntityId>)
        ensures
            v.subset_of(self.size_from(e, v).1),
            self.size_from(e, v).0 + unvisited_size(
                self.records@,
                self.archetypes@,
                self.components@,
                self.size_from(e, v).1,
            ) <= unvisited_size(self.records@, self.archetypes@, self.components@, v),
        decreases self.universe().insert(e).difference(v).len(), 0nat,
    {
        if !v.contains(e) {
            let v1 = v.insert(e);
            self.lemma_universe_finite();
            let u = self.universe();
            assert(u.difference(v1).subset_of(u.insert(e).difference(v).remove(e)));
            vstd::set_lib::lemma_len_subset(u.difference(v1), u.insert(e).difference(v).remove(e));
            self.lemma_own_size_record(e, v);
            if self.children_of(e).len() > 0 {
                self.lemma_sizes_from_bound(e, 0, v1);
            }
        }
    }

    /// `lemma_size_from_bound` for the children of `p` from the `i`-th on.
    pub proof fn lemma_sizes_from_bound(self, p: EntityId, i: int, v: Set<EntityId>)
        ensures
            v.subset_of(self.sizes_from(p, i, v).1),
            self.sizes_from(p, i, v).0 + unvisited_size(
                self.records@,
                self.archetypes@,
                self.components@,
                self.sizes_from(p, i, v).1,
            ) <= unvisited_size(self.records@, self.archetypes@, self.components@, v),
        decreases self.universe().difference(v).len(), self.children_of(p).len() - i + 1,
    {
        let kids = self.children_of(p);
        if 0 <= i < kids.len() {
            self.lemma_universe_finite();
            self.lemma_children_in_universe(p);
            assert(self.universe().insert(kids[i]) =~= self.universe());
            self.lemma_size_from_bound(kids[i], v);
            let v2 = self.size_from(kids[i], v).1;
            let u = self.universe();
            assert(u.difference(v2.union(v)).subset_of(u.difference(v)));
            vstd::set_lib::lemma_len_subset(u.difference(v2.union(v)), u.difference(v));
            assert(v2.union(v) =~= v2);
            self.lemma_sizes_from_bound(p, i + 1, v2);
        }
    }

    /// Where the snapshot is well formed, every size fits in a `usize`.
    pub proof fn lemma_size_fits(self, e: EntityId, v: Set<EntityId>)
        requires
            self.wf(),
        ensures
            self.size_from(e, v).0 <= usize::MAX,
    {
        self.lemma_size_from_bound(e, v);
        lemma_unvisited_le_all(self.records@, self.archetypes@, self.components@, v);
    }

    /// The position of the first record of `entity`.
    pub fn find_record(&self, entity: EntityId) -> (r: Option<usize>)
        ensures
            match r {
                Some(i) => first_record(self.records@, entity) == Some(i as int),
                None => first_record(self.records@, entity) is None,
            },
            r matches Some(i) ==> i < self.records@.len() && self.records@[i as int].entity == entity,
    {
        let mut i: usize = 0;
        while i < self.records.len()
            invariant
                i <= self.records.len(),
                forall|k: int| 0 <= k < i ==> self.records@[k].entity != entity,
            decreases self.records.len() - i,
        {
            if self.records[i].entity == entity {
                proof {
                    lemma_first_record_found(self.records@, entity, i as int);
                }
                return Some(i);
            }
            i += 1;
        }
        proof {
            lemma_first_record_absent(self.records@, entity);
        }
        None
    }

    /// The parent of `entity` (its `VFSParent`).
    pub fn parent(&self, entity: EntityId) -> (r: Option<EntityId>)
        ensures
            r == self.parent_of(entity),
    {
        match self.find_record(entity) {
            Some(i) => match &self.records[i].parent {
                Some(p) => Some(p.parent),
                None => None,
            },
            None => None,
        }
    }

    /// The children of `entity`: its listed children, then every entity of every
    /// archetype that its query filter accepts.
    pub fn children(&self, entity: EntityId) -> (r: Vec<EntityId>)
        ensures
            r@ == self.children_of(entity),
    {
        let mut r: Vec<EntityId> = Vec::new();
        match self.find_record(entity) {
            Some(i) => {
                let rec = &self.records[i];
                match &rec.children {
                    Some(c) => {
                        let mut k: usize = 0;
                        while k < c.children.len()
                            invariant
                                k <= c.children.len(),
                                r@ =~= c.children@.take(k as int),
                            decreases c.children.len() - k,
                        {
                            r.push(c.children[k]);
                            k += 1;
                        }
                        assert(c.children@.take(c.children.len() as int) =~= c.children@);
                    },
                    None => {},
                }
                let ghost base = r@;
                assert(base == listed(*rec));
                match &rec.query_children {
                    Some(q) => {
                        let mut a: usize = 0;
                        assert(self.archetypes@.take(0) =~= Seq::<ArchetypeRecord>::empty());
                        while a < self.archetypes.len()
                            invariant
                                a <= self.archetypes.len(),
                                r@ =~= base + query_entities(self.archetypes@.take(a as int), q.filter),
                            decreases self.archetypes.len() - a,
                        {
                            let arch = &self.archetypes[a];
                            proof {
                                assert(self.archetypes@.take(a + 1).drop_last() =~= self.archetypes@.take(a as int));
                            }
                            if q.filter.matches_archetype(arch) {
                                let mut k: usize = 0;
                                let ghost before = r@;
                                while k < arch.entities.len()
                                    invariant
                                        k <= arch.entities.len(),
                                        r@ =~= before + arch.entities@.take(k as int),
                                    decreases arch.entities.len() - k,
                                {
                                    r.push(arch.entities[k]);
                                    k += 1;
                                }
                                assert(arch.entities@.take(arch.entities.len() as int) =~= arch.entities@);
                            }
                            a += 1;
                        }
                        assert(self.archetypes@.take(self.archetypes.len() as int) =~= self.archetypes@);
                    },
                    None => {},
                }
            },
            None => {},
        }
        r
    }

    /// The own size of `entity`, where it fits.
    fn own_size_exec(&self, entity: EntityId) -> (r: usize)
        requires
            self.own_size(entity) <= usize::MAX,
        ensures
            r == self.own_size(entity),
    {
        match self.find_record(entity) {
            Some(i) => match self.records[i].archetype {
                Some(a) => {
                    if a < self.archetypes.len() {
                        let ids = &self.archetypes[a].components;
                        let mut total: usize = 0;
                        let mut k: usize = 0;
                        assert(ids@.take(0) =~= Seq::<usize>::empty());
                        while k < ids.len()
                            invariant
                                k <= ids.len(),
                                total == sizes_of(ids@.take(k as int), self.components@),
                                sizes_of(ids@, self.components@) <= usize::MAX,
                            decreases ids.len() - k,
                        {
                            proof {
                                assert(ids@.take(k + 1).drop_last() =~= ids@.take(k as int));
                                lemma_sizes_of_prefix(ids@, self.components@, k + 1);
                            }
                            match self.info_size_exec(ids[k]) {
                                Some(n) => {
                                    total = total + n;
                                },
                                None => {},
                            }
                            k += 1;
                        }
                        assert(ids@.take(ids.len() as int) =~= ids@);
                        total
                    } else {
                        0
                    }
                },
                None => 0,
            },
            None => 0,
        }
    }

    /// The size registered for a component id.
    fn info_size_exec(&self, id: usize) -> (r: Option<usize>)
        ensures
            match r {
                Some(n) => info_size(self.components@, id) == Some(n as nat),
                None => info_size(self.components@, id) is None,
            },
    {
        let mut i: usize = 0;
        assert(self.components@.skip(0) =~= self.components@);
        while i < self.components.len()
            invariant
                i <= self.components.len(),
                info_size(self.components@, id) == info_size(self.components@.skip(i as int), id),
            decreases self.components.len() - i,
        {
            proof {
                assert(self.components@.skip(i as int).drop_first() =~= self.components@.skip(i + 1));
            }
            if self.components[i].id == id {
                return Some(self.components[i].size);
            }
            i += 1;
        }
        None
    }

    /// The size of `entity`: for a directory the sizes of its children, for a
    /// file the sizes of the components of its archetype; every entity is
    /// counted once.
    pub fn compute_size(&self, entity: EntityId) -> (r: usize)
        requires
            self.wf(),
        ensures
            r == self.size_of(entity),
    {
        let mut visited: Vec<EntityId> = Vec::new();
        proof {
            assert(visited@.to_set() =~= Set::<EntityId>::empty());
            self.lemma_size_fits(entity, Set::empty());
        }
        self.compute_size_inner(entity, &mut visited)
    }

    fn compute_size_inner(&self, entity: EntityId, visited: &mut Vec<EntityId>) -> (r: usize)
        requires
            self.size_from(entity, old(visited)@.to_set()).0 <= usize::MAX,
        ensures
            r == self.size_from(entity, old(visited)@.to_set()).0,
            final(visited)@.to_set() == self.size_from(entity, old(visited)@.to_set()).1,
        decreases self.universe().insert(entity).difference(old(visited)@.to_set()).len(), 0nat,
    {
        let ghost v0 = visited@.to_set();
        if contains_entity(visited, entity) {
            return 0;
        }
        visited.push(entity);
        let ghost v1 = v0.insert(entity);
        assert(visited@.to_set() =~= v1);
        let children = self.children(entity);
        if children.len() > 0 {
            let mut total: usize = 0;
            let mut k: usize = 0;
            proof {
                self.lemma_universe_finite();
                self.lemma_children_in_universe(entity);
            }
            while k < children.len()
                invariant
                    k <= children.len(),
                    children@ == self.children_of(entity),
                    self.universe().finite(),
                    forall|j: int| 0 <= j < children@.len() ==> self.universe().contains(#[trigger] children@[j]),
                    !v0.contains(entity),
                    old(visited)@.to_set() == v0,
                    v1 == v0.insert(entity),
                    v1.subset_of(visited@.to_set()),
                    self.size_from(entity, v0) == self.sizes_from(entity, 0, v1),
                    self.sizes_from(entity, 0, v1).0 <= usize::MAX,
                    self.sizes_from(entity, 0, v1).0 == total + self.sizes_from(
                        entity,
                        k as int,
                        visited@.to_set(),
                    ).0,
                    self.sizes_from(entity, 0, v1).1 == self.sizes_from(
                        entity,
                        k as int,
                        visited@.to_set(),
                    ).1,
                decreases children.len() - k,
            {
                let child = children[k];
                let ghost vk = visited@.to_set();
                proof {
                    self.lemma_size_from_bound(child, vk);
                    let v2 = self.size_from(child, vk).1;
                    assert(v2.union(vk) =~= v2);
                    let u = self.universe();
                    assert(u.insert(child) =~= u);
                    assert(u.insert(child).difference(vk).subset_of(u.insert(entity).difference(v0).remove(entity)));
                    vstd::set_lib::lemma_len_subset(
                        u.insert(child).difference(vk),
                        u.insert(entity).difference(v0).remove(entity),
                    );
                    assert(u.insert(entity).difference(v0).contains(entity));
                    assert(u.insert(entity).difference(v0).finite());
                    assert(u.insert(entity).difference(v0).remove(entity).len() + 1 == u.insert(
                        entity,
                    ).difference(v0).len());
                }
                let a = self.compute_size_inner(child, visited);
                total = total + a;
                k += 1;
            }
            total
        } else {
            proof {
                assert(self.size_from(entity, v0) == (self.own_size(entity), v1));
            }
            self.own_size_exec(entity)
        }
    }
}

/// Whether `v` holds `e`.
pub fn contains_entity(v: &Vec<EntityId>, e: EntityId) -> (r: bool)
    ensures
        r == v@.to_set().contains(e),
{
    let mut i: usize = 0;
    while i < v.len()
        invariant
            i <= v.len(),
            forall|k: int| 0 <= k < i ==> v@[k] != e,
        decreases v.len() - i,
    {
        if v[i] == e {
            assert(v@.contains(e));
            return true;
        }
        i += 1;
    }
    assert(!v@.contains(e));
    false
}


/// The last `::`-separated segment of a name (`split("::").last()`).
pub fn last_segment_text(s: &Vec<char>) -> (r: Vec<char>)
    ensures
        r@ == last_segment(s@),
{
    let mut start: usize = 0;
    let mut i: usize = 0;
    while i < s.len() && i + 1 < s.len()
        invariant
            start <= i <= s.len(),
            last_segment(s@) == segment_after(s@, start as int, i as int),
        decreases s.len() - i,
    {
        if s[i] == ':' && s[i + 1] == ':' {
            i = i + 2;
            start = i;
        } else {
            i = i + 1;
        }
    }
    let mut r: Vec<char> = Vec::new();
    let mut k: usize = start;
    while k < s.len()
        invariant
            start <= k <= s.len(),
            r@ =~= s@.subrange(start as int, k as int),
        decreases s.len() - k,
    {
        r.push(s[k]);
        k += 1;
    }
    r
}

impl ECSFileSystem {
    /// Whether `entity` is named `name`.
    fn has_name(&self, entity: EntityId, name: &Vec<char>) -> (r: bool)
        ensures
            r == (self.name_of(entity) == Some(name@)),
    {
        match self.find_record(entity) {
            Some(i) => match &self.records[i].name {
                Some(n) => {
                    let cs = chars_of(n.name.as_str());
                    text_eq(&cs, name)
                },
                None => false,
            },
            None => false,
        }
    }

    /// The entity that `path` leads to from `root`: its `/`-separated parts are
    /// walked in turn, an empty part or `.` staying, `..` going to the parent
    /// where there is one, a name going to the first child of that name; `None`
    /// where a name is not found.
    pub fn resolve_path(&self, root: EntityId, path: &str) -> (r: Option<EntityId>)
        ensures
            r == self.resolve(root, path@),
    {
        let parts = split_str(path, '/');
        let ghost ps = texts(parts@);
        let mut current = root;
        let mut i: usize = 0;
        assert(ps.skip(0) =~= ps);
        while i < parts.len()
            invariant
                i <= parts.len(),
                ps == texts(parts@),
                ps == split_on(path@, '/'),
                self.walk(root, ps) == self.walk(current, ps.skip(i as int)),
            decreases parts.len() - i,
        {
            let part = &parts[i];
            proof {
                reveal_strlit(".");
                reveal_strlit("..");
                assert("."@ =~= seq!['.']);
                assert(".."@ =~= seq!['.', '.']);
                assert(ps.skip(i as int)[0] == part@);
                assert(ps.skip(i as int).drop_first() =~= ps.skip(i + 1));
            }
            if part.len() == 0 || text_is(part, ".") {
            } else if text_is(part, "..") {
                if let Some(p) = self.parent(current) {
                    current = p;
                }
            } else {
                let kids = self.children(current);
                match self.first_named(&kids, part) {
                    Some(k) => {
                        current = kids[k];
                    },
                    None => {
                        return None;
                    },
                }
            }
            i += 1;
        }
        Some(current)
    }

    /// The position of the first of `kids` named `name`.
    fn first_named(&self, kids: &Vec<EntityId>, name: &Vec<char>) -> (r: Option<usize>)
        ensures
            match r {
                Some(k) => k < kids.len() && self.child_named(kids@, name@) == Some(kids@[k as int]),
                None => self.child_named(kids@, name@) is None,
            },
    {
        let mut k: usize = 0;
        assert(kids@.skip(0) =~= kids@);
        while k < kids.len()
            invariant
                k <= kids.len(),
                self.child_named(kids@, name@) == self.child_named(kids@.skip(k as int), name@),
            decreases kids.len() - k,
        {
            proof {
                assert(kids@.skip(k as int)[0] == kids@[k as int]);
                assert(kids@.skip(k as int).drop_first() =~= kids@.skip(k + 1));
            }
            if self.has_name(kids[k], name) {
                return Some(k);
            }
            k += 1;
        }
        None
    }

    /// The name that `ls` shows for `entity`.
    pub fn vfs_name_text(&self, entity: EntityId) -> (r: Vec<char>)
        ensures
            r@ == self.display_name(entity),
    {
        match self.find_record(entity) {
            Some(i) => match &self.records[i].name {
                Some(n) => {
                    return chars_of(n.name.as_str());
                },
                None => {},
            },
            None => {},
        }
        let mut r = decimal_text(entity.index as u64);
        r.push('v');
        let g = decimal_text(entity.generation as u64);
        append_text(&mut r, &g);
        r
    }

    /// The name of `entity` in the file system: its `VFSName`, else
    /// `{index}v{generation}`.
    pub fn entity_vfs_name(&self, entity: EntityId) -> (r: String)
        ensures
            r@ == self.display_name(entity),
    {
        let t = self.vfs_name_text(entity);
        string_of(&t)
    }

    /// The name registered for a component id.
    fn info_name_exec(&self, id: usize) -> (r: Option<Vec<char>>)
        ensures
            match r {
                Some(n) => info_name(self.components@, id) == Some(n@),
                None => info_name(self.components@, id) is None,
            },
    {
        let mut i: usize = 0;
        assert(self.components@.skip(0) =~= self.components@);
        while i < self.components.len()
            invariant
                i <= self.components.len(),
                info_name(self.components@, id) == info_name(self.components@.skip(i as int), id),
            decreases self.components.len() - i,
        {
            proof {
                assert(self.components@.skip(i as int).drop_first() =~= self.components@.skip(i + 1));
            }
            if self.components[i].id == id {
                return Some(chars_of(self.components[i].name.as_str()));
            }
            i += 1;
        }
        None
    }

    /// The short names of the registered components of the archetype of `entity`.
    pub fn component_names(&self, entity: EntityId) -> (r: Vec<Vec<char>>)
        ensures
            texts(r@) == self.component_names_of(entity),
    {
        let mut r: Vec<Vec<char>> = Vec::new();
        match self.find_record(entity) {
            Some(i) => match self.records[i].archetype {
                Some(a) => {
                    if a < self.archetypes.len() {
                        let ids = &self.archetypes[a].components;
                        let mut k: usize = 0;
                        assert(ids@.take(0) =~= Seq::<usize>::empty());
                        while k < ids.len()
                            invariant
                                k <= ids.len(),
                                texts(r@) =~= short_names(ids@.take(k as int), self.components@),
                            decreases ids.len() - k,
                        {
                            proof {
                                assert(ids@.take(k + 1).drop_last() =~= ids@.take(k as int));
                            }
                            match self.info_name_exec(ids[k]) {
                                Some(n) => {
                                    r.push(last_segment_text(&n));
                                },
                                None => {},
                            }
                            k += 1;
                        }
                        assert(ids@.take(ids.len() as int) =~= ids@);
                    }
                },
                None => {},
            },
            None => {},
        }
        r
    }

    /// The own size of a record, where it fits in a `usize`.
    fn record_size_checked(&self, i: usize) -> (r: Option<usize>)
        requires
            i < self.records.len(),
        ensures
            match r {
                Some(n) => n == record_size(self.records@[i as int], self.archetypes@, self.components@),
                None => record_size(self.records@[i as int], self.archetypes@, self.components@) > usize::MAX,
            },
    {
        match self.records[i].archetype {
            Some(a) => {
                if a < self.archetypes.len() {
                    let ids = &self.archetypes[a].components;
                    let mut total: usize = 0;
                    let mut k: usize = 0;
                    assert(ids@.take(0) =~= Seq::<usize>::empty());
                    while k < ids.len()
                        invariant
                            k <= ids.len(),
                            i < self.records.len(),
                            self.records@[i as int].archetype == Some(a),
                            a < self.archetypes.len(),
                            ids@ == self.archetypes@[a as int].components@,
                            total == sizes_of(ids@.take(k as int), self.components@),
                        decreases ids.len() - k,
                    {
                        proof {
                            assert(ids@.take(k + 1).drop_last() =~= ids@.take(k as int));
                        }
                        match self.info_size_exec(ids[k]) {
                            Some(n) => {
                                match total.checked_add(n) {
                                    Some(t) => {
                                        total = t;
                                    },
                                    None => {
                                        proof {
                                            assert(ids@.take(k + 1).last() == ids@[k as int]);
                                            assert(sizes_of(ids@.take(k + 1), self.components@) == total + n);
                                            lemma_sizes_of_prefix(ids@, self.components@, k + 1);
                                            assert(self.records@[i as int].archetype == Some(a));
                                            assert(record_size(self.records@[i as int], self.archetypes@, self.components@) == sizes_of(ids@, self.components@));
                                        }
                                        return None;
                                    },
                                }
                            },
                            None => {},
                        }
                        k += 1;
                    }
                    assert(ids@.take(ids.len() as int) =~= ids@);
                    Some(total)
                } else {
                    Some(0)
                }
            },
            None => Some(0),
        }
    }

    /// Whether the snapshot is well formed (`wf`).
    pub fn is_well_formed(&self) -> (r: bool)
        ensures
            r == self.wf(),
    {
        let n = self.records.len();
        let ghost rs = self.records@;
        let ghost empty = Set::<EntityId>::empty();
        let mut total: usize = 0;
        let mut k: usize = 0;
        assert(rs.take(0) =~= Seq::<EntityRecord>::empty());
        while k < n
            invariant
                k <= n,
                n == self.records.len(),
                rs == self.records@,
                empty == Set::<EntityId>::empty(),
                total == unvisited_size(rs.take(k as int), self.archetypes@, self.components@, empty),
            decreases n - k,
        {
            proof {
                assert(rs.take(k + 1).drop_last() =~= rs.take(k as int));
                assert(rs.take(k + 1).last() == rs[k as int]);
            }
            match self.record_size_checked(k) {
                Some(m) => match total.checked_add(m) {
                    Some(t) => {
                        proof {
                            assert(!empty.contains(rs[k as int].entity));
                        }
                        total = t;
                    },
                    None => {
                        proof {
                            assert(!empty.contains(rs[k as int].entity));
                            assert(unvisited_size(rs.take(k + 1), self.archetypes@, self.components@, empty) == unvisited_size(rs.take(k as int), self.archetypes@, self.components@, empty) + record_size(rs[k as int], self.archetypes@, self.components@));
                            assert(unvisited_size(rs.take(k + 1), self.archetypes@, self.components@, empty) == total + m);
                            lemma_unvisited_prefix(rs, self.archetypes@, self.components@, empty, k + 1);
                        }
                        return false;
                    },
                },
                None => {
                    proof {
                        assert(!empty.contains(rs[k as int].entity));
                        assert(unvisited_size(rs.take(k + 1), self.archetypes@, self.components@, empty) >= record_size(rs[k as int], self.archetypes@, self.components@));
                        lemma_unvisited_prefix(rs, self.archetypes@, self.components@, empty, k + 1);
                    }
                    return false;
                },
            }
            k += 1;
        }
        assert(rs.take(n as int) =~= rs);
        true
    }
}

proof fn lemma_unvisited_prefix(
    rs: Seq<EntityRecord>,
    archs: Seq<ArchetypeRecord>,
    infos: Seq<ComponentInfo>,
    v: Set<EntityId>,
    k: int,
)
    requires
        0 <= k <= rs.len(),
    ensures
        unvisited_size(rs.take(k), archs, infos, v) <= unvisited_size(rs, archs, infos, v),
    decreases rs.len(),
{
    if k < rs.len() {
        assert(rs.drop_last().take(k) =~= rs.take(k));
        lemma_unvisited_prefix(rs.drop_last(), archs, infos, v, k);
    } else {
        assert(rs.take(k) =~= rs);
    }
}


// ---------------------------------------------------------------------------
// Laws of paths and sizes
// ---------------------------------------------------------------------------

impl ECSFileSystem {
    proof fn lemma_walk_concat(self, cur: EntityId, a: Seq<Seq<char>>, b: Seq<Seq<char>>)
        ensures
            self.walk(cur, a + b) == match self.walk(cur, a) {
                Some(e) => self.walk(e, b),
                None => None,
            },
        decreases a.len(),
    {
        if a.len() == 0 {
            assert(a + b =~= b);
        } else {
            assert((a + b)[0] == a[0]);
            assert((a + b).drop_first() =~= a.drop_first() + b);
            match self.step(cur, a[0]) {
                Some(n) => {
                    self.lemma_walk_concat(n, a.drop_first(), b);
                },
                None => {},
            }
        }
    }

    /// Resolving `a/b` resolves `a`, then `b` from where `a` led.
    pub proof fn law_resolve_concat(self, root: EntityId, a: Seq<char>, b: Seq<char>)
        ensures
            self.resolve(root, a + seq!['/'] + b) == match self.resolve(root, a) {
                Some(e) => self.resolve(e, b),
                None => None,
            },
    {
        crate::text::lemma_split_on_concat(a, b, '/');
        self.lemma_walk_concat(root, split_on(a, '/'), split_on(b, '/'));
    }

    /// The empty path, `/` and `.` lead to where the walk starts.
    pub proof fn law_resolve_here(self, root: EntityId)
        ensures
            self.resolve(root, Seq::empty()) == Some(root),
            self.resolve(root, seq!['/']) == Some(root),
            self.resolve(root, seq!['.']) == Some(root),
    {
        let e: Seq<char> = Seq::empty();
        let dot: Seq<char> = seq!['.'];
        assert(split_on(e, '/') =~= seq![e]);
        assert(self.walk(root, seq![e]) == Some(root)) by {
            assert(seq![e][0] == e);
            assert(self.step(root, e) == Some(root));
            assert(seq![e].drop_first() =~= Seq::<Seq<char>>::empty());
            assert(self.walk(root, Seq::<Seq<char>>::empty()) == Some(root));
        }
        crate::text::lemma_split_on_concat(e, e, '/');
        assert(e + seq!['/'] + e =~= seq!['/']);
        self.lemma_walk_concat(root, seq![e], seq![e]);
        assert(seq![e] + seq![e] =~= split_on(seq!['/'], '/'));
        assert(!dot.contains('/')) by {
            if dot.contains('/') {
                let i = choose|i: int| 0 <= i < dot.len() && dot[i] == '/';
                assert(dot[i] == '.');
            }
        }
        crate::text::lemma_split_on_single(dot, '/');
        assert(self.walk(root, seq![dot]) == Some(root)) by {
            assert(seq![dot][0] == dot);
            assert(seq![dot].drop_first() =~= Seq::<Seq<char>>::empty());
        }
    }

    /// A name without `/` (and other than `.` and `..`) leads to the first
    /// child of that name.
    pub proof fn law_resolve_child(self, root: EntityId, name: Seq<char>)
        requires
            name.len() > 0,
            name != seq!['.'],
            name != seq!['.', '.'],
            !name.contains('/'),
        ensures
            self.resolve(root, name) == self.child_named(self.children_of(root), name),
    {
        crate::text::lemma_split_on_single(name, '/');
        assert(seq![name][0] == name);
        assert(seq![name].drop_first() =~= Seq::<Seq<char>>::empty());
        assert(self.step(root, name) == self.child_named(self.children_of(root), name));
        match self.child_named(self.children_of(root), name) {
            Some(c) => {
                assert(self.walk(c, Seq::<Seq<char>>::empty()) == Some(c));
            },
            None => {},
        }
    }

    proof fn lemma_child_named(self, kids: Seq<EntityId>, name: Seq<char>)
        ensures
            match self.child_named(kids, name) {
                Some(c) => self.name_of(c) == Some(name) && exists|j: int|
                    0 <= j < kids.len() && kids[j] == c && forall|i: int|
                        0 <= i < j ==> self.name_of(#[trigger] kids[i]) != Some(name),
                None => forall|i: int| 0 <= i < kids.len() ==> self.name_of(#[trigger] kids[i]) != Some(name),
            },
        decreases kids.len(),
    {
        if kids.len() > 0 {
            let rest = kids.drop_first();
            self.lemma_child_named(rest, name);
            if self.name_of(kids[0]) == Some(name) {
                assert(kids[0] == kids[0]);
            } else {
                match self.child_named(rest, name) {
                    Some(c) => {
                        let j = choose|j: int|
                            0 <= j < rest.len() && rest[j] == c && forall|i: int|
                                0 <= i < j ==> self.name_of(#[trigger] rest[i]) != Some(name);
                        assert(kids[j + 1] == c);
                        assert forall|i: int| 0 <= i < j + 1 implies self.name_of(#[trigger] kids[i]) != Some(name) by {
                            if i > 0 {
                                assert(kids[i] == rest[i - 1]);
                            }
                        }
                    },
                    None => {
                        assert forall|i: int| 0 <= i < kids.len() implies self.name_of(#[trigger] kids[i]) != Some(name) by {
                            if i > 0 {
                                assert(kids[i] == rest[i - 1]);
                            }
                        }
                    },
                }
            }
        }
    }

    /// A name step reaches only a child with exactly that name: the first
    /// child so named; and none where no child has that name.
    pub proof fn law_resolve_name(self, root: EntityId, name: Seq<char>)
        requires
            name.len() > 0,
            name != seq!['.'],
            name != seq!['.', '.'],
            !name.contains('/'),
        ensures
            match self.resolve(root, name) {
                Some(c) => self.name_of(c) == Some(name) && exists|j: int|
                    0 <= j < self.children_of(root).len() && self.children_of(root)[j] == c
                        && forall|i: int| 0 <= i < j ==> self.name_of(#[trigger] self.children_of(root)[i]) != Some(name),
                None => forall|i: int|
                    0 <= i < self.children_of(root).len() ==> self.name_of(#[trigger] self.children_of(root)[i]) != Some(name),
            },
    {
        self.law_resolve_child(root, name);
        self.lemma_child_named(self.children_of(root), name);
    }

    /// `..` leads to the parent, or stays where there is none.
    pub proof fn law_resolve_parent(self, root: EntityId)
        ensures
            self.resolve(root, seq!['.', '.']) == Some(
                match self.parent_of(root) {
                    Some(p) => p,
                    None => root,
                },
            ),
    {
        let dots: Seq<char> = seq!['.', '.'];
        assert(!dots.contains('/')) by {
            if dots.contains('/') {
                let i = choose|i: int| 0 <= i < dots.len() && dots[i] == '/';
                assert(dots[i] == '.');
            }
        }
        crate::text::lemma_split_on_single(dots, '/');
        assert(seq![dots][0] == dots);
        assert(seq![dots].drop_first() =~= Seq::<Seq<char>>::empty());
        let next = match self.parent_of(root) {
            Some(p) => p,
            None => root,
        };
        assert(self.step(root, dots) == Some(next));
        assert(self.walk(next, Seq::<Seq<char>>::empty()) == Some(next));
    }

    /// A path that ends in a name leads, if anywhere, to an entity of exactly that name.
    pub proof fn law_resolve_ends_at_name(self, root: EntityId, dir: Seq<char>, name: Seq<char>)
        requires
            name.len() > 0,
            name != seq!['.'],
            name != seq!['.', '.'],
            !name.contains('/'),
        ensures
            self.resolve(root, dir + seq!['/'] + name) matches Some(c) ==> self.name_of(c) == Some(name),
    {
        self.law_resolve_concat(root, dir, name);
        match self.resolve(root, dir) {
            Some(d) => {
                self.law_resolve_name(d, name);
            },
            None => {},
        }
    }

    /// A file (an entity without children) counts its own size.
    pub proof fn law_size_of_file(self, e: EntityId)
        requires
            self.children_of(e).len() == 0,
        ensures
            self.size_of(e) == self.own_size(e),
    {
    }
}


// ---------------------------------------------------------------------------
// What a size counts
// ---------------------------------------------------------------------------

impl ECSFileSystem {
    /// Whether the `i`-th entity of `p` has the next one among its children.
    pub open spec fn steps_down(self, p: Seq<EntityId>, i: int) -> bool {
        self.children_of(p[i]).contains(p[i + 1])
    }

    /// Whether `p` walks down the file system: each entity a child of the one
    /// before it, none of them in `avoid`.
    pub open spec fn is_walk(self, p: Seq<EntityId>, avoid: Set<EntityId>) -> bool {
        &&& p.len() >= 1
        &&& forall|i: int| 0 <= i < p.len() ==> !avoid.contains(#[trigger] p[i])
        &&& forall|i: int| 0 <= i < p.len() - 1 ==> #[trigger] self.steps_down(p, i)
    }

    /// Whether a walk that avoids `avoid` leads from `e` to `x`.
    pub open spec fn reaches(self, e: EntityId, x: EntityId, avoid: Set<EntityId>) -> bool {
        exists|p: Seq<EntityId>| #[trigger] self.is_walk(p, avoid) && p[0] == e && p.last() == x
    }

    /// The entities that walks from `e` avoiding `avoid` reach (`e` too, unless avoided).
    pub open spec fn reached(self, e: EntityId, avoid: Set<EntityId>) -> Set<EntityId> {
        Set::new(|x: EntityId| self.reaches(e, x, avoid))
    }

    /// The entities that walks avoiding `avoid` reach from the `i`-th of `ks` on.
    pub open spec fn reached_from(self, ks: Seq<EntityId>, i: int, avoid: Set<EntityId>) -> Set<
        EntityId,
    > {
        Set::new(|x: EntityId| exists|j: int| i <= j < ks.len() && #[trigger] self.reaches(ks[j], x, avoid))
    }

    /// What an entity adds to a size: its own size if it has no children.
    pub open spec fn file_size(self, x: EntityId) -> nat {
        if self.children_of(x).len() == 0 {
            self.own_size(x)
        } else {
            0
        }
    }

    /// The sum of `file_size` over a finite set of entities.
    pub open spec fn files_size(self, s: Set<EntityId>) -> nat {
        s.fold(0nat, |acc: nat, x: EntityId| acc + self.file_size(x))
    }

    proof fn lemma_join_walks(self, r: Seq<EntityId>, q: Seq<EntityId>, v: Set<EntityId>)
        requires
            self.is_walk(r, v),
            self.is_walk(q, v),
            r.last() == q[0],
        ensures
            self.is_walk(r + q.drop_first(), v),
            (r + q.drop_first())[0] == r[0],
            (r + q.drop_first()).last() == q.last(),
    {
        let w = r + q.drop_first();
        assert forall|i: int| 0 <= i < w.len() implies !v.contains(#[trigger] w[i]) by {
            if i >= r.len() {
                assert(w[i] == q[i - r.len() + 1]);
            }
        }
        assert forall|i: int| 0 <= i < w.len() - 1 implies #[trigger] self.steps_down(w, i) by {
            if i < r.len() - 1 {
                assert(self.steps_down(r, i));
            } else {
                let j = i - r.len() + 1;
                assert(self.steps_down(q, j));
                assert(w[i + 1] == q[j + 1]);
                if i == r.len() - 1 {
                    assert(w[i] == q[0]);
                } else {
                    assert(w[i] == q[j]);
                }
            }
        }
    }

    proof fn lemma_walk_in_universe(self, p: Seq<EntityId>, v: Set<EntityId>)
        requires
            self.is_walk(p, v),
        ensures
            forall|i: int| 1 <= i < p.len() ==> self.universe().contains(#[trigger] p[i]),
    {
        assert forall|i: int| 1 <= i < p.len() implies self.universe().contains(#[trigger] p[i]) by {
            assert(self.steps_down(p, i - 1));
            self.lemma_children_in_universe(p[i - 1]);
            let kids = self.children_of(p[i - 1]);
            let k = choose|k: int| 0 <= k < kids.len() && kids[k] == p[i];
            assert(self.universe().contains(kids[k]));
        }
    }

    /// What a walk from `e` reaches is `e` or lies among the entities it
    /// could also be reached from `e`'s children.
    proof fn lemma_reached_subset(self, e: EntityId, v: Set<EntityId>)
        ensures
            self.reached(e, v).subset_of(self.universe().insert(e)),
            self.reached(e, v).finite(),
    {
        assert forall|x: EntityId| self.reached(e, v).contains(x) implies self.universe().insert(
            e,
        ).contains(x) by {
            let p = choose|p: Seq<EntityId>| #[trigger] self.is_walk(p, v) && p[0] == e && p.last() == x;
            self.lemma_walk_in_universe(p, v);
            if p.len() > 1 {
                assert(self.universe().contains(p[p.len() - 1]));
            }
        }
        self.lemma_universe_finite();
        vstd::set_lib::lemma_set_subset_finite(self.universe().insert(e), self.reached(e, v));
    }

    proof fn lemma_reached_from_subset(self, p: EntityId, i: int, v: Set<EntityId>)
        requires
            0 <= i,
        ensures
            self.reached_from(self.children_of(p), i, v).subset_of(self.universe()),
            self.reached_from(self.children_of(p), i, v).finite(),
    {
        let kids = self.children_of(p);
        self.lemma_children_in_universe(p);
        assert forall|x: EntityId| self.reached_from(kids, i, v).contains(x) implies self.universe().contains(x) by {
            let j = choose|j: int| i <= j < kids.len() && #[trigger] self.reaches(kids[j], x, v);
            self.lemma_reached_subset(kids[j], v);
            assert(self.reached(kids[j], v).contains(x));
            assert(self.universe().contains(kids[j]));
        }
        self.lemma_universe_finite();
        vstd::set_lib::lemma_set_subset_finite(self.universe(), self.reached_from(kids, i, v));
    }

    /// A walk from `e` ends at `e` or at what a walk from a child of `e`
    /// that avoids `e` reaches.
    proof fn lemma_walk_from(self, e: EntityId, p: Seq<EntityId>, v: Set<EntityId>)
        requires
            self.is_walk(p, v),
            p[0] == e,
        ensures
            p.last() == e || self.reached_from(self.children_of(e), 0, v.insert(e)).contains(p.last()),
        decreases p.len(),
    {
        if p.len() > 1 {
            let q = p.drop_first();
            assert(self.steps_down(p, 0));
            assert(self.is_walk(q, v)) by {
                assert forall|i: int| 0 <= i < q.len() - 1 implies #[trigger] self.steps_down(q, i) by {
                    assert(self.steps_down(p, i + 1));
                }
            }
            if exists|j: int| 0 <= j < q.len() && q[j] == e {
                let j = choose|j: int| 0 <= j < q.len() && q[j] == e;
                let t = q.skip(j);
                assert(self.is_walk(t, v)) by {
                    assert forall|i: int| 0 <= i < t.len() - 1 implies #[trigger] self.steps_down(t, i) by {
                        assert(self.steps_down(q, i + j));
                    }
                }
                assert(t.last() == p.last());
                self.lemma_walk_from(e, t, v);
            } else {
                let v1 = v.insert(e);
                assert(self.is_walk(q, v1));
                let kids = self.children_of(e);
                assert(kids.contains(q[0]));
                let k = choose|k: int| 0 <= k < kids.len() && kids[k] == q[0];
                assert(self.reaches(kids[k], q.last(), v1));
            }
        }
    }

    proof fn lemma_reached_avoided(self, e: EntityId, v: Set<EntityId>)
        requires
            v.contains(e),
        ensures
            self.reached(e, v) == Set::<EntityId>::empty(),
    {
        assert forall|x: EntityId| !self.reached(e, v).contains(x) by {
            if self.reaches(e, x, v) {
                let p = choose|p: Seq<EntityId>| #[trigger] self.is_walk(p, v) && p[0] == e && p.last() == x;
                assert(!v.contains(p[0]));
            }
        }
        assert(self.reached(e, v) =~= Set::<EntityId>::empty());
    }

    proof fn lemma_reached_file(self, e: EntityId, v: Set<EntityId>)
        requires
            !v.contains(e),
            self.children_of(e).len() == 0,
        ensures
            self.reached(e, v) == set![e],
    {
        assert(self.is_walk(seq![e], v));
        assert(self.reaches(e, e, v));
        assert forall|x: EntityId| self.reached(e, v).contains(x) implies x == e by {
            let p = choose|p: Seq<EntityId>| #[trigger] self.is_walk(p, v) && p[0] == e && p.last() == x;
            if p.len() > 1 {
                assert(self.steps_down(p, 0));
            }
        }
        assert(self.reached(e, v) =~= set![e]);
    }

    proof fn lemma_reached_directory(self, e: EntityId, v: Set<EntityId>)
        requires
            !v.contains(e),
        ensures
            self.reached(e, v) == self.reached_from(self.children_of(e), 0, v.insert(e)).insert(e),
            !self.reached_from(self.children_of(e), 0, v.insert(e)).contains(e),
    {
        let v1 = v.insert(e);
        let kids = self.children_of(e);
        let rest = self.reached_from(kids, 0, v1);
        assert(self.is_walk(seq![e], v));
        assert(self.reaches(e, e, v));
        assert forall|x: EntityId| rest.contains(x) implies self.reached(e, v).contains(x) && x != e by {
            let j = choose|j: int| 0 <= j < kids.len() && #[trigger] self.reaches(kids[j], x, v1);
            let q = choose|q: Seq<EntityId>| #[trigger] self.is_walk(q, v1) && q[0] == kids[j] && q.last() == x;
            assert(!v1.contains(q[q.len() - 1]));
            let r = seq![e];
            let w = r + q;
            assert(self.is_walk(w, v)) by {
                assert forall|i: int| 0 <= i < w.len() implies !v.contains(#[trigger] w[i]) by {
                    if i > 0 {
                        assert(w[i] == q[i - 1]);
                    }
                }
                assert forall|i: int| 0 <= i < w.len() - 1 implies #[trigger] self.steps_down(w, i) by {
                    if i == 0 {
                        assert(w[1] == q[0]);
                        assert(kids.contains(kids[j]));
                    } else {
                        assert(self.steps_down(q, i - 1));
                        assert(w[i] == q[i - 1]);
                        assert(w[i + 1] == q[i]);
                    }
                }
            }
            assert(w[0] == e && w.last() == x);
        }
        assert forall|x: EntityId| self.reached(e, v).contains(x) implies rest.insert(e).contains(x) by {
            let p = choose|p: Seq<EntityId>| #[trigger] self.is_walk(p, v) && p[0] == e && p.last() == x;
            self.lemma_walk_from(e, p, v);
        }
        assert(self.reached(e, v) =~= rest.insert(e));
    }

    proof fn lemma_walk_skip(self, p: Seq<EntityId>, t: int, v: Set<EntityId>)
        requires
            self.is_walk(p, v),
            0 <= t < p.len(),
        ensures
            self.is_walk(p.skip(t), v),
            p.skip(t)[0] == p[t],
            p.skip(t).last() == p.last(),
    {
        let q = p.skip(t);
        assert forall|i: int| 0 <= i < q.len() - 1 implies #[trigger] self.steps_down(q, i) by {
            assert(self.steps_down(p, i + t));
        }
    }

    proof fn lemma_reached_from_end(self, ks: Seq<EntityId>, i: int, v: Set<EntityId>)
        requires
            i >= ks.len(),
        ensures
            self.reached_from(ks, i, v) == Set::<EntityId>::empty(),
    {
        assert(self.reached_from(ks, i, v) =~= Set::<EntityId>::empty());
    }

    /// The entities reached from the `i`-th entity on are those reached from
    /// the `i`-th, and then, apart from them, those reached from the next ones.
    proof fn lemma_reached_from_step(self, ks: Seq<EntityId>, i: int, v: Set<EntityId>)
        requires
            0 <= i < ks.len(),
        ensures
            self.reached_from(ks, i, v) == self.reached(ks[i], v) + self.reached_from(
                ks,
                i + 1,
                v + self.reached(ks[i], v),
            ),
            self.reached(ks[i], v).disjoint(self.reached_from(ks, i + 1, v + self.reached(ks[i], v))),
    {
        let r1 = self.reached(ks[i], v);
        let v2 = v + r1;
        let all = self.reached_from(ks, i, v);
        let next = self.reached_from(ks, i + 1, v2);
        assert forall|x: EntityId| r1.contains(x) implies all.contains(x) by {
            assert(self.reaches(ks[i], x, v));
        }
        assert forall|x: EntityId| next.contains(x) implies all.contains(x) && !r1.contains(x) by {
            let j = choose|j: int| i + 1 <= j < ks.len() && #[trigger] self.reaches(ks[j], x, v2);
            let q = choose|q: Seq<EntityId>| #[trigger] self.is_walk(q, v2) && q[0] == ks[j] && q.last() == x;
            assert(self.is_walk(q, v));
            assert(self.reaches(ks[j], x, v));
            assert(!v2.contains(q[q.len() - 1]));
        }
        assert forall|x: EntityId| all.contains(x) implies r1.contains(x) || next.contains(x) by {
            let j = choose|j: int| i <= j < ks.len() && #[trigger] self.reaches(ks[j], x, v);
            let q = choose|q: Seq<EntityId>| #[trigger] self.is_walk(q, v) && q[0] == ks[j] && q.last() == x;
            if j == i {
            } else if exists|t: int| 0 <= t < q.len() && r1.contains(q[t]) {
                let t = choose|t: int| 0 <= t < q.len() && r1.contains(q[t]);
                let r = choose|r: Seq<EntityId>| #[trigger] self.is_walk(r, v) && r[0] == ks[i] && r.last() == q[t];
                self.lemma_walk_skip(q, t, v);
                self.lemma_join_walks(r, q.skip(t), v);
                assert(self.reaches(ks[i], x, v));
            } else {
                assert forall|k: int| 0 <= k < q.len() implies !v2.contains(#[trigger] q[k]) by {
                    assert(!v.contains(q[k]));
                }
                assert(self.is_walk(q, v2));
                assert(self.reaches(ks[j], x, v2));
            }
        }
        assert(all =~= r1 + next);
    }

    /// The depth-first count from `visited` counts exactly the files that
    /// walks from `e` avoiding `visited` reach, and visits what they reach.
    pub proof fn lemma_size_from_reached(self, e: EntityId, v: Set<EntityId>)
        ensures
            self.size_from(e, v).1 == v + self.reached(e, v),
            self.size_from(e, v).0 == self.files_size(self.reached(e, v)),
        decreases self.universe().insert(e).difference(v).len(), 0nat,
    {
        if v.contains(e) {
            self.lemma_reached_avoided(e, v);
            self.lemma_files_size_empty();
            assert(v + Set::<EntityId>::empty() =~= v);
        } else {
            let v1 = v.insert(e);
            self.lemma_universe_finite();
            let u = self.universe();
            assert(u.difference(v1).subset_of(u.insert(e).difference(v).remove(e)));
            vstd::set_lib::lemma_len_subset(u.difference(v1), u.insert(e).difference(v).remove(e));
            if self.children_of(e).len() > 0 {
                self.lemma_sizes_from_reached(e, 0, v1);
                self.lemma_reached_directory(e, v);
                let rest = self.reached_from(self.children_of(e), 0, v1);
                self.lemma_reached_from_subset(e, 0, v1);
                self.lemma_files_size_insert(rest, e);
                assert(v1 + rest =~= v + rest.insert(e));
            } else {
                self.lemma_reached_file(e, v);
                self.lemma_files_size_empty();
                self.lemma_files_size_insert(Set::<EntityId>::empty(), e);
                assert(set![e] =~= Set::<EntityId>::empty().insert(e));
                assert(v1 =~= v + set![e]);
            }
        }
    }

    /// `lemma_size_from_reached` for the children of `p` from the `i`-th on.
    pub proof fn lemma_sizes_from_reached(self, p: EntityId, i: int, v: Set<EntityId>)
        requires
            0 <= i,
        ensures
            self.sizes_from(p, i, v).1 == v + self.reached_from(self.children_of(p), i, v),
            self.sizes_from(p, i, v).0 == self.files_size(
                self.reached_from(self.children_of(p), i, v),
            ),
        decreases self.universe().difference(v).len(), self.children_of(p).len() - i + 1,
    {
        let kids = self.children_of(p);
        if i >= kids.len() {
            self.lemma_reached_from_end(kids, i, v);
            self.lemma_files_size_empty();
            assert(v + Set::<EntityId>::empty() =~= v);
        } else {
            self.lemma_universe_finite();
            self.lemma_children_in_universe(p);
            assert(self.universe().insert(kids[i]) =~= self.universe());
            self.lemma_size_from_reached(kids[i], v);
            let r1 = self.reached(kids[i], v);
            let v2 = self.size_from(kids[i], v).1;
            let u = self.universe();
            assert(u.difference(v2.union(v)).subset_of(u.difference(v)));
            vstd::set_lib::lemma_len_subset(u.difference(v2.union(v)), u.difference(v));
            assert(v2.union(v) =~= v2);
            self.lemma_sizes_from_reached(p, i + 1, v2);
            self.lemma_reached_from_step(kids, i, v);
            let next = self.reached_from(kids, i + 1, v2);
            self.lemma_reached_subset(kids[i], v);
            self.lemma_reached_from_subset(p, i + 1, v2);
            self.lemma_files_size_union(r1, next);
            assert(v2 + next =~= v + (r1 + next));
        }
    }

    /// The size of an entity is the sum of the own sizes of the entities
    /// without children that walks down from it reach (the entity itself
    /// included), each counted once.
    pub proof fn law_size_counts_reached_files(self, e: EntityId)
        ensures
            self.reached(e, Set::empty()).finite(),
            self.size_of(e) == self.files_size(self.reached(e, Set::empty())),
    {
        self.lemma_reached_subset(e, Set::empty());
        self.lemma_size_from_reached(e, Set::empty());
    }

    proof fn lemma_files_size_insert(self, s: Set<EntityId>, x: EntityId)
        requires
            s.finite(),
            !s.contains(x),
        ensures
            self.files_size(s.insert(x)) == self.files_size(s) + self.file_size(x),
    {
        let f = |acc: nat, y: EntityId| acc + self.file_size(y);
        assert(vstd::set::fold::is_fun_commutative(f)) by {
            assert forall|b: nat, a1: EntityId, a2: EntityId| #[trigger] f(f(b, a1), a2) == f(f(b, a2), a1) by {}
        }
        vstd::set::fold::lemma_fold_insert(s, 0nat, f, x);
    }

    proof fn lemma_files_size_empty(self)
        ensures
            self.files_size(Set::empty()) == 0,
    {
        let f = |acc: nat, y: EntityId| acc + self.file_size(y);
        vstd::set::fold::lemma_fold_empty(0nat, f);
    }

    proof fn lemma_files_size_union(self, a: Set<EntityId>, b: Set<EntityId>)
        requires
            a.finite(),
            b.finite(),
            a.disjoint(b),
        ensures
            self.files_size(a + b) == self.files_size(a) + self.files_size(b),
        decreases b.len(),
    {
        if b.len() == 0 {
            assert(b =~= Set::empty());
            assert(a + b =~= a);
            self.lemma_files_size_empty();
        } else {
            let x = b.choose();
            let b1 = b.remove(x);
            self.lemma_files_size_union(a, b1);
            assert(a + b =~= (a + b1).insert(x));
            assert(b =~= b1.insert(x));
            self.lemma_files_size_insert(a + b1, x);
            self.lemma_files_size_insert(b1, x);
        }
    }
}


// ---------------------------------------------------------------------------
// Command registry
// ---------------------------------------------------------------------------

/// The commands that the terminal knows, by name.
pub struct CommandRegistry<V> {
    commands: Vec<(String, V)>,
}

impl<V> CommandRegistry<V> {
    /// The registered names, in the order they were first registered.
    pub closed spec fn names_seq(self) -> Seq<Seq<char>> {
        self.commands@.map_values(|e: (String, V)| e.0@)
    }

    /// No name is registered twice.
    #[verifier::type_invariant]
    closed spec fn unique_names(self) -> bool {
        self.names_seq().no_duplicates()
    }

    /// The registered commands, by name.
    pub closed spec fn entries(self) -> Map<Seq<char>, V> {
        Map::new(
            |k: Seq<char>| self.names_seq().contains(k),
            |k: Seq<char>| self.commands@[self.names_seq().index_of(k)].1,
        )
    }

    /// An empty registry.
    pub fn new() -> (r: Self)
        ensures
            r.entries() == Map::<Seq<char>, V>::empty(),
    {
        let r = CommandRegistry { commands: Vec::new() };
        assert(r.entries() =~= Map::<Seq<char>, V>::empty());
        r
    }

    fn position(&self, name: &Vec<char>) -> (r: Option<usize>)
        ensures
            match r {
                Some(i) => i < self.commands@.len() && self.names_seq()[i as int] == name@,
                None => !self.names_seq().contains(name@),
            },
    {
        let mut i: usize = 0;
        while i < self.commands.len()
            invariant
                i <= self.commands.len(),
                forall|k: int| 0 <= k < i ==> self.names_seq()[k] != name@,
            decreases self.commands.len() - i,
        {
            let n = chars_of(self.commands[i].0.as_str());
            if text_eq(&n, name) {
                return Some(i);
            }
            i += 1;
        }
        None
    }

    /// Registers `command_id` under `name`, in place of what was registered under it.
    pub fn register(&mut self, name: &str, command_id: V)
        ensures
            final(self).entries() == old(self).entries().insert(name@, command_id),
    {
        proof {
            use_type_invariant(&*self);
        }
        let key = chars_of(name);
        let ghost old_names = self.names_seq();
        let ghost old_map = self.entries();
        match self.position(&key) {
            Some(i) => {
                let owned = string_of(&key);
                let mut cmds: Vec<(String, V)> = Vec::new();
                std::mem::swap(&mut cmds, &mut self.commands);
                cmds.set(i, (owned, command_id));
                proof {
                    assert(cmds@.map_values(|e: (String, V)| e.0@) =~= old_names);
                }
                self.commands = cmds;
                proof {
                    assert(self.names_seq() =~= old_names);
                    assert forall|k: Seq<char>| #[trigger] self.names_seq().contains(k) implies self.names_seq().index_of(k) == old_names.index_of(k) by {}
                    assert forall|j: int| 0 <= j < old_names.len() && old_names[j] == name@ implies j == i by {}
                    assert(old_names.index_of(name@) == i) by {
                        assert(old_names.contains(name@));
                    }
                    assert(self.entries() =~= old_map.insert(name@, command_id));
                }
            },
            None => {
                let owned = string_of(&key);
                let mut cmds: Vec<(String, V)> = Vec::new();
                std::mem::swap(&mut cmds, &mut self.commands);
                cmds.push((owned, command_id));
                proof {
                    let n = cmds@.map_values(|e: (String, V)| e.0@);
                    assert(n =~= old_names.push(name@));
                    assert forall|a: int, b: int| 0 <= a < n.len() && 0 <= b < n.len() && a != b implies n[a] != n[b] by {
                        if b == old_names.len() {
                            assert(old_names.contains(n[a]));
                        } else if a == old_names.len() {
                            assert(old_names.contains(n[b]));
                        }
                    }
                }
                self.commands = cmds;
                proof {
                    let n = self.names_seq();
                    assert(n =~= old_names.push(name@));
                    assert forall|k: Seq<char>| #[trigger] old_names.contains(k) implies n.index_of(k) == old_names.index_of(k) by {
                        let j = old_names.index_of(k);
                        assert(n[j] == k);
                    }
                    assert(n.index_of(name@) == old_names.len()) by {
                        assert(n[old_names.len() as int] == name@);
                    }
                    assert(self.entries() =~= old_map.insert(name@, command_id));
                }
            },
        }
    }

    /// Removes what is registered under `name`, if anything.
    pub fn remove(&mut self, name: &str)
        ensures
            final(self).entries() == old(self).entries().remove(name@),
    {
        proof {
            use_type_invariant(&*self);
        }
        let key = chars_of(name);
        let ghost old_names = self.names_seq();
        let ghost old_map = self.entries();
        match self.position(&key) {
            Some(i) => {
                let mut cmds: Vec<(String, V)> = Vec::new();
                std::mem::swap(&mut cmds, &mut self.commands);
                cmds.remove(i);
                proof {
                    let n = cmds@.map_values(|e: (String, V)| e.0@);
                    assert(n =~= old_names.remove(i as int));
                    assert forall|a: int, b: int| 0 <= a < n.len() && 0 <= b < n.len() && a != b implies n[a] != n[b] by {
                        let oa = if a < i { a } else { a + 1 };
                        let ob = if b < i { b } else { b + 1 };
                        assert(n[a] == old_names[oa]);
                        assert(n[b] == old_names[ob]);
                    }
                }
                self.commands = cmds;
                proof {
                    let n = self.names_seq();
                    assert(n =~= old_names.remove(i as int));
                    assert forall|k: Seq<char>| #[trigger] n.contains(k) implies n.index_of(k) == if old_names.index_of(k) < i { old_names.index_of(k) } else { old_names.index_of(k) - 1 } by {
                        let j = n.index_of(k);
                        if j < i {
                            assert(old_names[j] == k);
                        } else {
                            assert(old_names[j + 1] == k);
                        }
                    }
                    assert forall|k: Seq<char>| #[trigger] old_names.contains(k) && k != name@ implies n.contains(k) by {
                        let j = old_names.index_of(k);
                        if j < i {
                            assert(n[j] == k);
                        } else {
                            assert(j != i);
                            assert(n[j - 1] == k);
                        }
                    }
                    assert(!n.contains(name@)) by {
                        if n.contains(name@) {
                            let j = n.index_of(name@);
                            if j < i {
                                assert(old_names[j] == name@);
                            } else {
                                assert(old_names[j + 1] == name@);
                            }
                        }
                    }
                    assert(self.entries() =~= old_map.remove(name@));
                }
            },
            None => {
                assert(self.entries() =~= old_map.remove(name@));
            },
        }
    }

    /// What is registered under `name`.
    pub fn get(&self, name: &str) -> (r: Option<&V>)
        ensures
            match r {
                Some(v) => self.entries().contains_key(name@) && *v == self.entries()[name@],
                None => !self.entries().contains_key(name@),
            },
    {
        proof {
            use_type_invariant(self);
        }
        let key = chars_of(name);
        match self.position(&key) {
            Some(i) => {
                proof {
                    assert(self.names_seq().index_of(name@) == i) by {
                        assert(self.names_seq().contains(name@));
                    }
                }
                Some(&self.commands[i].1)
            },
            None => None,
        }
    }

    /// The registered names, in the order they were first registered.
    pub fn names(&self) -> (r: Vec<String>)
        ensures
            views(r@) == self.names_seq(),
            self.names_seq().no_duplicates(),
            self.names_seq().to_set() == self.entries().dom(),
    {
        proof {
            use_type_invariant(self);
            assert(self.names_seq().to_set() =~= self.entries().dom());
        }
        let mut r: Vec<String> = Vec::new();
        let mut i: usize = 0;
        while i < self.commands.len()
            invariant
                i <= self.commands.len(),
                views(r@) =~= self.names_seq().take(i as int),
            decreases self.commands.len() - i,
        {
            let n = chars_of(self.commands[i].0.as_str());
            r.push(string_of(&n));
            proof {
                assert(self.names_seq().take(i + 1) =~= self.names_seq().take(i as int).push(self.names_seq()[i as int]));
            }
            i += 1;
        }
        r
    }
}

} // verus!
