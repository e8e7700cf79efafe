//! A parser and serializer for a hierarchical, keyed, text-based save format.
//!
//! A document is a tree of [`Node`]s. Every node carries an ordered
//! multi-map of string properties and an ordered multi-map of named child
//! nodes: one key may hold several values, and both the order of keys and
//! the order of values under one key are preserved exactly, because they
//! are observable through iteration and through the serialized text.

use vstd::prelude::*;

pub mod format;
pub mod parse;
pub mod roundtrip;
pub mod text;

pub use parse::ParseError;

verus! {

/// A single record of a document: an ordered multi-map from key to
/// property values, and an ordered multi-map from key to child nodes.
#[derive(Debug, PartialEq, Eq)]
pub struct Node {
    pub properties: Vec<(String, Vec<String>)>,
    pub children: Vec<(String, Vec<Node>)>,
}

/// The mathematical shape of a [`Node`]: every string is replaced by its
/// sequence of characters, every `Vec` by a `Seq`.
#[verifier::ext_equal]
pub struct NodeView {
    pub props: Seq<(Seq<char>, Seq<Seq<char>>)>,
    pub kids: Seq<(Seq<char>, Seq<NodeView>)>,
}

pub open spec fn values_view(vs: Seq<String>) -> Seq<Seq<char>> {
    vs.map(|i: int, s: String| s@)
}

pub open spec fn props_view(ps: Seq<(String, Vec<String>)>) -> Seq<(Seq<char>, Seq<Seq<char>>)> {
    ps.map(|i: int, p: (String, Vec<String>)| (p.0@, values_view(p.1@)))
}

pub open spec fn node_view(n: Node) -> NodeView
    decreases n,
{
    NodeView { props: props_view(n.properties@), kids: kids_view(n.children@) }
}

pub open spec fn kids_view(ks: Seq<(String, Vec<Node>)>) -> Seq<(Seq<char>, Seq<NodeView>)>
    decreases ks,
{
    if ks.len() == 0 {
        Seq::empty()
    } else {
        kids_view(ks.drop_last()).push((ks.last().0@, kid_group_view(ks.last().1@)))
    }
}

pub open spec fn kid_group_view(ns: Seq<Node>) -> Seq<NodeView>
    decreases ns,
{
    if ns.len() == 0 {
        Seq::empty()
    } else {
        kid_group_view(ns.drop_last()).push(node_view(ns.last()))
    }
}

impl View for Node {
    type V = NodeView;

    open spec fn view(&self) -> NodeView {
        node_view(*self)
    }
}

pub broadcast proof fn kids_view_len(ks: Seq<(String, Vec<Node>)>)
    ensures
        #[trigger] kids_view(ks).len() == ks.len(),
    decreases ks,
{
    if ks.len() > 0 {
        kids_view_len(ks.drop_last());
    }
}

pub broadcast proof fn kids_view_index(ks: Seq<(String, Vec<Node>)>, i: int)
    requires
        0 <= i < ks.len(),
    ensures
        kids_view(ks).len() == ks.len(),
        #[trigger] kids_view(ks)[i] == (ks[i].0@, kid_group_view(ks[i].1@)),
    decreases ks,
{
    kids_view_len(ks);
    if i < ks.len() - 1 {
        kids_view_index(ks.drop_last(), i);
    }
}

pub broadcast proof fn kid_group_view_len(ns: Seq<Node>)
    ensures
        #[trigger] kid_group_view(ns).len() == ns.len(),
    decreases ns,
{
    if ns.len() > 0 {
        kid_group_view_len(ns.drop_last());
    }
}

pub broadcast proof fn kid_group_view_index(ns: Seq<Node>, i: int)
    requires
        0 <= i < ns.len(),
    ensures
        kid_group_view(ns).len() == ns.len(),
        #[trigger] kid_group_view(ns)[i] == node_view(ns[i]),
    decreases ns,
{
    kid_group_view_len(ns);
    if i < ns.len() - 1 {
        kid_group_view_index(ns.drop_last(), i);
    }
}

pub broadcast group group_node_view_lemmas {
    kids_view_len,
    kids_view_index,
    kid_group_view_len,
    kid_group_view_index,
}

// ---------------------------------------------------------------------------
// The ordered multi-map, as mathematics.
//
// A multi-map is a sequence of entries `(key, values)`. A well-formed one
// has pairwise distinct keys and no empty value group: a key with no
// values is represented by the key being absent.
// ---------------------------------------------------------------------------

/// The index of the first entry with the given key, or `m.len()` if absent.
pub open spec fn mm_index_of<V>(m: Seq<(Seq<char>, Seq<V>)>, k: Seq<char>) -> int
    decreases m.len(),
{
    if m.len() == 0 {
        0
    } else if m[0].0 == k {
        0
    } else {
        1 + mm_index_of(m.drop_first(), k)
    }
}

pub open spec fn mm_contains_key<V>(m: Seq<(Seq<char>, Seq<V>)>, k: Seq<char>) -> bool {
    mm_index_of(m, k) < m.len()
}

/// Whether the key holds at least one value.
pub open spec fn mm_has<V>(m: Seq<(Seq<char>, Seq<V>)>, k: Seq<char>) -> bool {
    mm_contains_key(m, k) && m[mm_index_of(m, k)].1.len() > 0
}

/// The values stored under the given key (empty if the key is absent).
pub open spec fn mm_group<V>(m: Seq<(Seq<char>, Seq<V>)>, k: Seq<char>) -> Seq<V> {
    if mm_contains_key(m, k) {
        m[mm_index_of(m, k)].1
    } else {
        Seq::empty()
    }
}

/// The first value stored under the given key.
pub open spec fn mm_first<V>(m: Seq<(Seq<char>, Seq<V>)>, k: Seq<char>) -> V {
    mm_group(m, k)[0]
}

/// Appends one value under the key, keeping the key's position if it is
/// already present and appending a new entry otherwise.
pub open spec fn mm_add<V>(m: Seq<(Seq<char>, Seq<V>)>, k: Seq<char>, v: V) -> Seq<
    (Seq<char>, Seq<V>),
> {
    if mm_contains_key(m, k) {
        let i = mm_index_of(m, k);
        m.update(i, (k, m[i].1.push(v)))
    } else {
        m.push((k, seq![v]))
    }
}

/// Replaces all values under the key by the single given one, keeping the
/// key's position if it is already present and appending it otherwise.
pub open spec fn mm_set<V>(m: Seq<(Seq<char>, Seq<V>)>, k: Seq<char>, v: V) -> Seq<
    (Seq<char>, Seq<V>),
> {
    if mm_contains_key(m, k) {
        m.update(mm_index_of(m, k), (k, seq![v]))
    } else {
        m.push((k, seq![v]))
    }
}

/// Removes the entry of the given key, closing the gap.
pub open spec fn mm_remove<V>(m: Seq<(Seq<char>, Seq<V>)>, k: Seq<char>) -> Seq<
    (Seq<char>, Seq<V>),
> {
    if mm_contains_key(m, k) {
        m.remove(mm_index_of(m, k))
    } else {
        m
    }
}

/// Appends each pair in order, as `mm_add` does.
pub open spec fn mm_add_all<V>(m: Seq<(Seq<char>, Seq<V>)>, ps: Seq<(Seq<char>, V)>) -> Seq<
    (Seq<char>, Seq<V>),
>
    decreases ps.len(),
{
    if ps.len() == 0 {
        m
    } else {
        mm_add_all(mm_add(m, ps[0].0, ps[0].1), ps.drop_first())
    }
}

/// One entry flattened to key-value pairs.
pub open spec fn group_flat<V>(e: (Seq<char>, Seq<V>)) -> Seq<(Seq<char>, V)> {
    Seq::new(e.1.len(), |j: int| (e.0, e.1[j]))
}

/// The whole multi-map flattened to key-value pairs: for each key in
/// order, all its values in stored order.
pub open spec fn mm_flat<V>(m: Seq<(Seq<char>, Seq<V>)>) -> Seq<(Seq<char>, V)>
    decreases m.len(),
{
    if m.len() == 0 {
        Seq::empty()
    } else {
        group_flat(m[0]) + mm_flat(m.drop_first())
    }
}

/// Distinct keys and no empty value group.
pub open spec fn mm_wf<V>(m: Seq<(Seq<char>, Seq<V>)>) -> bool {
    (forall|i: int| 0 <= i < m.len() ==> #[trigger] m[i].1.len() > 0) && (forall|i: int, j: int|
        0 <= i < j < m.len() ==> #[trigger] m[i].0 != #[trigger] m[j].0)
}

/// The first entry with a key is the only one, and `mm_index_of` finds it.
pub broadcast proof fn mm_index_of_props<V>(m: Seq<(Seq<char>, Seq<V>)>, k: Seq<char>)
    ensures
        0 <= #[trigger] mm_index_of(m, k) <= m.len(),
        mm_index_of(m, k) < m.len() ==> m[mm_index_of(m, k)].0 == k,
        forall|j: int| 0 <= j < mm_index_of(m, k) ==> m[j].0 != k,
        forall|j: int| 0 <= j < m.len() && #[trigger] m[j].0 == k ==> mm_index_of(m, k) <= j,
    decreases m.len(),
{
    if m.len() > 0 && m[0].0 != k {
        mm_index_of_props(m.drop_first(), k);
        assert forall|j: int| 0 <= j < m.len() && #[trigger] m[j].0 == k implies mm_index_of(m, k)
            <= j by {
            assert(m.drop_first()[j - 1] == m[j]);
        }
        assert forall|j: int| 0 <= j < mm_index_of(m, k) implies m[j].0 != k by {
            if j > 0 {
                assert(m[j] == m.drop_first()[j - 1]);
            }
        }
    }
}

/// `mm_add` keeps a multi-map well formed.
pub proof fn mm_add_wf<V>(m: Seq<(Seq<char>, Seq<V>)>, k: Seq<char>, v: V)
    requires
        mm_wf(m),
    ensures
        mm_wf(mm_add(m, k, v)),
{
    mm_index_of_props(m, k);
}

/// `mm_set` keeps a multi-map well formed.
pub proof fn mm_set_wf<V>(m: Seq<(Seq<char>, Seq<V>)>, k: Seq<char>, v: V)
    requires
        mm_wf(m),
    ensures
        mm_wf(mm_set(m, k, v)),
{
    mm_index_of_props(m, k);
}

/// `mm_remove` keeps a multi-map well formed.
pub proof fn mm_remove_wf<V>(m: Seq<(Seq<char>, Seq<V>)>, k: Seq<char>)
    requires
        mm_wf(m),
    ensures
        mm_wf(mm_remove(m, k)),
{
    mm_index_of_props(m, k);
}

/// Flattening splits at any index.
pub proof fn mm_flat_split<V>(m: Seq<(Seq<char>, Seq<V>)>, i: int)
    requires
        0 <= i <= m.len(),
    ensures
        mm_flat(m) == mm_flat(m.subrange(0, i)) + mm_flat(m.subrange(i, m.len() as int)),
    decreases m.len(),
{
    if i == 0 {
        assert(m.subrange(0, 0) =~= Seq::empty());
        assert(m.subrange(0, m.len() as int) =~= m);
        assert(mm_flat(m) =~= mm_flat(Seq::empty()) + mm_flat(m));
    } else {
        let t = m.drop_first();
        mm_flat_split(t, i - 1);
        assert(m.subrange(0, i).drop_first() =~= t.subrange(0, i - 1));
        assert(m.subrange(i, m.len() as int) =~= t.subrange(i - 1, t.len() as int));
        assert(m.subrange(0, i)[0] == m[0]);
        assert(mm_flat(m) == group_flat(m[0]) + mm_flat(t));
        assert(mm_flat(m.subrange(0, i)) == group_flat(m[0]) + mm_flat(t.subrange(0, i - 1)));
        assert(mm_flat(m) =~= mm_flat(m.subrange(0, i)) + mm_flat(
            m.subrange(i, m.len() as int),
        ));
    }
}

// ---------------------------------------------------------------------------
// The structural invariant of a node.
// ---------------------------------------------------------------------------

/// Both multi-maps are well formed, recursively in every child.
pub open spec fn nv_inv(nv: NodeView) -> bool
    decreases nv,
{
    &&& mm_wf(nv.props)
    &&& mm_wf(nv.kids)
    &&& forall|i: int, j: int|
        0 <= i < nv.kids.len() && 0 <= j < nv.kids[i].1.len() ==> nv_inv(
            #[trigger] nv.kids[i].1[j],
        )
}

impl Node {
    /// The structural invariant: every constructor establishes it and
    /// every method preserves it.
    pub open spec fn inv(&self) -> bool {
        nv_inv(self@)
    }

    /// Creates a new, empty, node.
    pub fn new() -> (r: Node)
        ensures
            r@.props.len() == 0,
            r@.kids.len() == 0,
            r.inv(),
    {
        let r = Node { properties: Vec::new(), children: Vec::new() };
        proof {
            broadcast use group_node_view_lemmas;

            assert(r@.props =~= Seq::empty());
            assert(r@.kids =~= Seq::empty());
        }
        r
    }
}

/// The view of a flat sequence of key-value string pairs.
pub open spec fn pairs_view(s: Seq<(String, String)>) -> Seq<(Seq<char>, Seq<char>)> {
    s.map(|i: int, p: (String, String)| (p.0@, p.1@))
}

/// Finds the first entry with the given key in a property multi-map.
fn find_prop(v: &Vec<(String, Vec<String>)>, key: &str) -> (r: usize)
    ensures
        r == mm_index_of(props_view(v@), key@),
{
    proof {
        mm_index_of_props(props_view(v@), key@);
    }
    let ghost m = props_view(v@);
    let mut i: usize = 0;
    while i < v.len()
        invariant
            0 <= i <= v@.len(),
            m == props_view(v@),
            forall|j: int| 0 <= j < i ==> #[trigger] m[j].0 != key@,
        decreases v@.len() - i,
    {
        if crate::text::str_eq(v[i].0.as_str(), key) {
            proof {
                mm_index_of_props(m, key@);
                assert(m[i as int].0 == key@);
            }
            return i;
        }
        i += 1;
    }
    proof {
        mm_index_of_props(m, key@);
        if mm_index_of(m, key@) < m.len() {
            assert(m[mm_index_of(m, key@)].0 == key@);
            assert(false);
        }
    }
    i
}

impl Node {
    /// Gets the property value for a given key, if it exists. If multiple
    /// values are set, the first is returned.
    pub fn property(&self, key: &str) -> (r: Option<&String>)
        ensures
            mm_has(self@.props, key@) ==> r is Some && r->0@ == mm_first(self@.props, key@),
            !mm_has(self@.props, key@) ==> r is None,
    {
        let i = find_prop(&self.properties, key);
        if i < self.properties.len() {
            let g = &self.properties[i];
            if g.1.len() > 0 {
                Some(&g.1[0])
            } else {
                None
            }
        } else {
            None
        }
    }

    /// Returns true if this node contains at least one property value with
    /// the given key.
    pub fn has_property(&self, key: &str) -> (r: bool)
        ensures
            r == mm_has(self@.props, key@),
    {
        let i = find_prop(&self.properties, key);
        i < self.properties.len() && self.properties[i].1.len() > 0
    }

    /// Sets the property value for a given key. Values already set for the
    /// key are cleared; the key keeps its position if already present.
    pub fn set_property(&mut self, key: &str, value: &str)
        requires
            old(self).inv(),
        ensures
            final(self).inv(),
            final(self)@.props == mm_set(old(self)@.props, key@, value@),
            final(self)@.kids == old(self)@.kids,
    {
        let ghost m = props_view(self.properties@);
        let i = find_prop(&self.properties, key);
        proof {
            mm_index_of_props(m, key@);
            mm_set_wf(m, key@, value@);
        }
        if i < self.properties.len() {
            let e = &mut self.properties[i];
            e.1.clear();
            e.1.push(value.to_owned());
            proof {
                assert(values_view(self.properties@[i as int].1@) =~= seq![value@]);
                assert(self@.props =~= mm_set(old(self)@.props, key@, value@));
            }
        } else {
            let mut vs: Vec<String> = Vec::new();
            vs.push(value.to_owned());
            self.properties.push((key.to_owned(), vs));
            proof {
                assert(values_view(vs@) =~= seq![value@]);
                assert(self@.props =~= mm_set(old(self)@.props, key@, value@));
            }
        }
    }

    /// Adds one more property value for a given key. Existing values are
    /// kept; the new value comes after them.
    pub fn add_property(&mut self, key: &str, value: &str)
        requires
            old(self).inv(),
        ensures
            final(self).inv(),
            final(self)@.props == mm_add(old(self)@.props, key@, value@),
            final(self)@.kids == old(self)@.kids,
    {
        let ghost m = props_view(self.properties@);
        let i = find_prop(&self.properties, key);
        proof {
            mm_index_of_props(m, key@);
            mm_add_wf(m, key@, value@);
        }
        if i < self.properties.len() {
            let e = &mut self.properties[i];
            e.1.push(value.to_owned());
            proof {
                assert(values_view(self.properties@[i as int].1@) =~= m[i as int].1.push(value@));
                assert(self@.props =~= mm_add(old(self)@.props, key@, value@));
            }
        } else {
            let mut vs: Vec<String> = Vec::new();
            vs.push(value.to_owned());
            self.properties.push((key.to_owned(), vs));
            proof {
                assert(values_view(vs@) =~= seq![value@]);
                assert(self@.props =~= mm_add(old(self)@.props, key@, value@));
            }
        }
    }

    /// Removes all property values for the given key and returns them in
    /// stored order.
    pub fn clear_property(&mut self, key: &str) -> (r: Vec<String>)
        requires
            old(self).inv(),
        ensures
            final(self).inv(),
            values_view(r@) == mm_group(old(self)@.props, key@),
            final(self)@.props == mm_remove(old(self)@.props, key@),
            final(self)@.kids == old(self)@.kids,
    {
        let ghost m = props_view(self.properties@);
        let i = find_prop(&self.properties, key);
        proof {
            mm_index_of_props(m, key@);
            mm_remove_wf(m, key@);
        }
        if i < self.properties.len() {
            let e = self.properties.remove(i);
            proof {
                assert(self@.props =~= mm_remove(old(self)@.props, key@));
            }
            e.1
        } else {
            proof {
                assert(values_view(Seq::<String>::empty()) =~= Seq::<Seq<char>>::empty());
            }
            Vec::new()
        }
    }

    /// Removes every property of this node and returns all key-value pairs
    /// in original flattened order.
    pub fn clear_properties(&mut self) -> (r: Vec<(String, String)>)
        requires
            old(self).inv(),
        ensures
            final(self).inv(),
            pairs_view(r@) == mm_flat(old(self)@.props),
            final(self)@.props.len() == 0,
            final(self)@.kids == old(self)@.kids,
    {
        let ghost m0 = props_view(old(self).properties@);
        let mut r: Vec<(String, String)> = Vec::new();
        while self.properties.len() > 0
            invariant
                old(self).inv(),
                self.children == old(self).children,
                mm_wf(props_view(self.properties@)),
                pairs_view(r@) + mm_flat(props_view(self.properties@)) == mm_flat(m0),
            decreases self.properties@.len(),
        {
            let ghost mcur = props_view(self.properties@);
            let e = self.properties.remove(0);
            let ghost ge = (e.0@, values_view(e.1@));
            proof {
                assert(props_view(self.properties@) =~= mcur.drop_first());
                assert(mm_flat(mcur) == group_flat(ge) + mm_flat(mcur.drop_first()));
            }
            let mut vi: usize = 0;
            let ghost r0 = pairs_view(r@);
            while vi < e.1.len()
                invariant
                    0 <= vi <= e.1@.len(),
                    ge == (e.0@, values_view(e.1@)),
                    pairs_view(r@) == r0 + group_flat(ge).subrange(0, vi as int),
                decreases e.1@.len() - vi,
            {
                let ghost rprev = r@;
                r.push((e.0.clone(), e.1[vi].clone()));
                proof {
                    assert(group_flat(ge)[vi as int] == (e.0@, e.1@[vi as int]@));
                    assert(pairs_view(r@).last() == (e.0@, e.1@[vi as int]@));
                    assert(pairs_view(r@) =~= pairs_view(rprev).push((e.0@, e.1@[vi as int]@)));
                    assert(group_flat(ge).subrange(0, vi + 1) =~= group_flat(ge).subrange(
                        0,
                        vi as int,
                    ).push(group_flat(ge)[vi as int]));
                }
                vi += 1;
                proof {
                    assert(pairs_view(r@) =~= r0 + group_flat(ge).subrange(0, vi as int));
                }
            }
            proof {
                assert(group_flat(ge).subrange(0, e.1@.len() as int) =~= group_flat(ge));
                assert(pairs_view(r@) + mm_flat(props_view(self.properties@)) =~= mm_flat(m0));
            }
        }
        proof {
            assert(self@.props.len() == 0);
            assert(pairs_view(r@) =~= mm_flat(m0));
        }
        r
    }

    /// Adds the given key-value properties to this node, in order, as
    /// `add_property` would.
    pub fn extend_properties(&mut self, pairs: Vec<(String, String)>)
        requires
            old(self).inv(),
        ensures
            final(self).inv(),
            final(self)@.props == mm_add_all(old(self)@.props, pairs_view(pairs@)),
            final(self)@.kids == old(self)@.kids,
    {
        let ghost all = pairs_view(pairs@);
        proof {
            assert(all.subrange(0, all.len() as int) =~= all);
        }
        let mut i: usize = 0;
        while i < pairs.len()
            invariant
                0 <= i <= pairs@.len(),
                all == pairs_view(pairs@),
                self.inv(),
                self@.kids == old(self)@.kids,
                mm_add_all(self@.props, all.subrange(i as int, all.len() as int)) == mm_add_all(
                    old(self)@.props,
                    all,
                ),
            decreases pairs@.len() - i,
        {
            let ghost before = self@.props;
            let p = &pairs[i];
            self.add_property(p.0.as_str(), p.1.as_str());
            proof {
                let rest = all.subrange(i as int, all.len() as int);
                assert(rest[0] == all[i as int]);
                assert(rest.drop_first() =~= all.subrange(i + 1, all.len() as int));
                assert(mm_add_all(before, rest) == mm_add_all(
                    mm_add(before, all[i as int].0, all[i as int].1),
                    rest.drop_first(),
                ));
            }
            i += 1;
        }
        proof {
            assert(all.subrange(all.len() as int, all.len() as int) =~= Seq::empty());
        }
    }
}

/// The view of a flat sequence of key-node pairs.
pub open spec fn kid_pairs_view(s: Seq<(String, Node)>) -> Seq<(Seq<char>, NodeView)> {
    s.map(|i: int, p: (String, Node)| (p.0@, node_view(p.1)))
}

/// Replaces the first value under the key (which must be present).
pub open spec fn mm_update_first<V>(m: Seq<(Seq<char>, Seq<V>)>, k: Seq<char>, v: V) -> Seq<
    (Seq<char>, Seq<V>),
> {
    let i = mm_index_of(m, k);
    m.update(i, (k, m[i].1.update(0, v)))
}

/// `kid_group_view` maps over `push`.
pub proof fn kid_group_view_push(ns: Seq<Node>, n: Node)
    ensures
        kid_group_view(ns.push(n)) == kid_group_view(ns).push(node_view(n)),
{
    assert(ns.push(n).drop_last() =~= ns);
    assert(ns.push(n).last() == n);
}

/// `kids_view` maps over `update`.
pub proof fn kids_view_update(ks: Seq<(String, Vec<Node>)>, i: int, e: (String, Vec<Node>))
    requires
        0 <= i < ks.len(),
    ensures
        kids_view(ks.update(i, e)) == kids_view(ks).update(i, (e.0@, kid_group_view(e.1@))),
{
    kids_view_len(ks);
    kids_view_len(ks.update(i, e));
    assert forall|a: int| 0 <= a < ks.len() implies kids_view(ks.update(i, e))[a] == kids_view(
        ks,
    ).update(i, (e.0@, kid_group_view(e.1@)))[a] by {
        kids_view_index(ks.update(i, e), a);
        kids_view_index(ks, a);
    }
    assert(kids_view(ks.update(i, e)) =~= kids_view(ks).update(i, (e.0@, kid_group_view(e.1@))));
}

/// `kids_view` maps over `push`.
pub proof fn kids_view_push(ks: Seq<(String, Vec<Node>)>, e: (String, Vec<Node>))
    ensures
        kids_view(ks.push(e)) == kids_view(ks).push((e.0@, kid_group_view(e.1@))),
{
    assert(ks.push(e).drop_last() =~= ks);
    assert(ks.push(e).last() == e);
}

/// `kids_view` maps over `remove`.
pub proof fn kids_view_remove(ks: Seq<(String, Vec<Node>)>, i: int)
    requires
        0 <= i < ks.len(),
    ensures
        kids_view(ks.remove(i)) == kids_view(ks).remove(i),
{
    kids_view_len(ks);
    kids_view_len(ks.remove(i));
    assert forall|a: int| 0 <= a < ks.len() - 1 implies kids_view(ks.remove(i))[a] == kids_view(
        ks,
    ).remove(i)[a] by {
        kids_view_index(ks.remove(i), a);
        kids_view_index(ks, a);
        if a < i {
            assert(ks.remove(i)[a] == ks[a]);
        } else {
            assert(ks.remove(i)[a] == ks[a + 1]);
            kids_view_index(ks, a + 1);
        }
    }
    assert(kids_view(ks.remove(i)) =~= kids_view(ks).remove(i));
}

/// Lifts the field-level postconditions of `child_mut` to the view of
/// the whole node: writing `rnew` through the returned reference updates
/// the first child of `key`, and keeps the node's invariant whenever
/// `rnew` satisfies it.
pub proof fn lemma_child_update_view(
    oc: Seq<(String, Vec<Node>)>,
    fc: Seq<(String, Vec<Node>)>,
    key: Seq<char>,
    rnew: Node,
)
    requires
        mm_has(kids_view(oc), key),
        fc.len() == oc.len(),
        oc[mm_index_of(kids_view(oc), key)].1@.len() > 0,
        forall|a: int|
            0 <= a < oc.len() && a != mm_index_of(kids_view(oc), key) ==> #[trigger] fc[a]
                == oc[a],
        fc[mm_index_of(kids_view(oc), key)].0 == oc[mm_index_of(kids_view(oc), key)].0,
        fc[mm_index_of(kids_view(oc), key)].1@ == oc[mm_index_of(kids_view(oc), key)].1@.update(
            0,
            rnew,
        ),
    ensures
        kids_view(fc) == mm_update_first(kids_view(oc), key, node_view(rnew)),
        (mm_wf(kids_view(oc)) && nv_inv(node_view(rnew)) && (forall|a: int, b: int|
            0 <= a < oc.len() && 0 <= b < oc[a].1@.len() ==> nv_inv(
                node_view(#[trigger] oc[a].1@[b]),
            )) ==> (mm_wf(kids_view(fc)) && (forall|a: int, b: int|
            0 <= a < fc.len() && 0 <= b < fc[a].1@.len() ==> nv_inv(
                node_view(#[trigger] fc[a].1@[b]),
            )))),
{
    broadcast use group_node_view_lemmas;

    let idx = mm_index_of(kids_view(oc), key);
    mm_index_of_props(kids_view(oc), key);
    assert(kid_group_view(fc[idx].1@) =~= kids_view(oc)[idx].1.update(0, node_view(rnew)));
    assert(kids_view(fc) =~~= mm_update_first(kids_view(oc), key, node_view(rnew)));
    if mm_wf(kids_view(oc)) && nv_inv(node_view(rnew)) && (forall|a: int, b: int|
        0 <= a < oc.len() && 0 <= b < oc[a].1@.len() ==> nv_inv(
            node_view(#[trigger] oc[a].1@[b]),
        )) {
        assert forall|a: int, b: int|
            0 <= a < fc.len() && 0 <= b < fc[a].1@.len() implies nv_inv(
            node_view(#[trigger] fc[a].1@[b]),
        ) by {
            if a != idx || b != 0 {
                assert(fc[a].1@[b] == oc[a].1@[b]);
            }
        }
    }
}

/// Finds the first entry with the given key in a child multi-map.
fn find_child(v: &Vec<(String, Vec<Node>)>, key: &str) -> (r: usize)
    ensures
        r == mm_index_of(kids_view(v@), key@),
{
    broadcast use group_node_view_lemmas;

    proof {
        mm_index_of_props(kids_view(v@), key@);
    }
    let ghost m = kids_view(v@);
    let mut i: usize = 0;
    while i < v.len()
        invariant
            0 <= i <= v@.len(),
            m == kids_view(v@),
            m.len() == v@.len(),
            forall|j: int| 0 <= j < i ==> #[trigger] m[j].0 != key@,
        decreases v@.len() - i,
    {
        proof {
            kids_view_index(v@, i as int);
        }
        if crate::text::str_eq(v[i].0.as_str(), key) {
            proof {
                mm_index_of_props(m, key@);
                assert(m[i as int].0 == key@);
            }
            return i;
        }
        proof {
            assert(m[i as int].0 != key@);
        }
        i += 1;
    }
    proof {
        mm_index_of_props(m, key@);
        if mm_index_of(m, key@) < m.len() {
            assert(m[mm_index_of(m, key@)].0 == key@);
            assert(false);
        }
    }
    i
}

impl Node {
    /// Gets the child for a given key, if it exists. If multiple children
    /// exist, the first is returned.
    pub fn child(&self, key: &str) -> (r: Option<&Node>)
        ensures
            mm_has(self@.kids, key@) ==> r is Some && node_view(*r->0) == mm_first(
                self@.kids,
                key@,
            ),
            !mm_has(self@.kids, key@) ==> r is None,
    {
        broadcast use group_node_view_lemmas;

        let i = find_child(&self.children, key);
        proof {
            mm_index_of_props(self@.kids, key@);
        }
        if i < self.children.len() {
            let g = &self.children[i];
            if g.1.len() > 0 {
                Some(&g.1[0])
            } else {
                None
            }
        } else {
            None
        }
    }

    /// Returns true if this node contains at least one child with the
    /// given key.
    pub fn has_child(&self, key: &str) -> (r: bool)
        ensures
            r == mm_has(self@.kids, key@),
    {
        broadcast use group_node_view_lemmas;

        let i = find_child(&self.children, key);
        i < self.children.len() && self.children[i].1.len() > 0
    }

    /// Gets a mutable reference to the first child stored under the given
    /// key, which must be present. The postconditions locate the borrowed
    /// child inside the node; `lemma_child_update_view` lifts them to the
    /// view of the whole node.
    pub fn child_mut(&mut self, key: &str) -> (r: &mut Node)
        requires
            old(self).inv(),
            mm_has(old(self)@.kids, key@),
        ensures
            node_view(*r) == mm_first(old(self)@.kids, key@),
            final(self).properties == old(self).properties,
            final(self).children@.len() == old(self).children@.len(),
            0 <= mm_index_of(old(self)@.kids, key@) < old(self).children@.len(),
            forall|a: int|
                0 <= a < old(self).children@.len() && a != mm_index_of(old(self)@.kids, key@)
                    ==> final(self).children@[a] == old(self).children@[a],
            final(self).children@[mm_index_of(old(self)@.kids, key@)].0 == old(
                self,
            ).children@[mm_index_of(old(self)@.kids, key@)].0,
            old(self).children@[mm_index_of(old(self)@.kids, key@)].1@.len() > 0,
            final(self).children@[mm_index_of(old(self)@.kids, key@)].1@ == old(
                self,
            ).children@[mm_index_of(old(self)@.kids, key@)].1@.update(0, *final(r)),
    {
        broadcast use group_node_view_lemmas;

        let ghost m = old(self)@.kids;
        let ghost idx = mm_index_of(m, key@);
        proof {
            mm_index_of_props(m, key@);
        }
        let i = find_child(&self.children, key);
        assert(i < self.children.len());
        assert(self.children@[i as int].1@.len() > 0);
        assert(node_view(self.children@[i as int].1@[0]) == mm_first(m, key@));
        let g = &mut self.children[i];
        let r = &mut g.1[0];
        r
    }

    /// Sets the child for a given key. Children already stored under the
    /// key are cleared; the key keeps its position if already present.
    pub fn set_child(&mut self, key: &str, child: Node)
        requires
            old(self).inv(),
            child.inv(),
        ensures
            final(self).inv(),
            final(self)@.kids == mm_set(old(self)@.kids, key@, node_view(child)),
            final(self)@.props == old(self)@.props,
    {
        broadcast use group_node_view_lemmas;

        let ghost m = old(self)@.kids;
        let ghost cv = node_view(child);
        proof {
            mm_index_of_props(m, key@);
            mm_set_wf(m, key@, cv);
        }
        let i = find_child(&self.children, key);
        if i < self.children.len() {
            let e = &mut self.children[i];
            e.1.clear();
            e.1.push(child);
            proof {
                kids_view_index(old(self).children@, i as int);
                assert(self.children@ =~= old(self).children@.update(
                    i as int,
                    self.children@[i as int],
                ));
                kids_view_update(old(self).children@, i as int, self.children@[i as int]);
                assert(kid_group_view(self.children@[i as int].1@) =~= seq![cv]);
                assert(self@.kids =~~= mm_set(m, key@, cv));
            }
        } else {
            let mut vs: Vec<Node> = Vec::new();
            vs.push(child);
            self.children.push((key.to_owned(), vs));
            proof {
                kids_view_push(old(self).children@, self.children@.last());
                assert(self.children@.drop_last() =~= old(self).children@);
                assert(self.children@ =~= old(self).children@.push(self.children@.last()));
                assert(kid_group_view(vs@) =~= seq![cv]);
                assert(self@.kids =~~= mm_set(m, key@, cv));
            }
        }
        proof {
            let fm = self@.kids;
            assert forall|a: int, b: int|
                0 <= a < fm.len() && 0 <= b < fm[a].1.len() implies nv_inv(
                #[trigger] fm[a].1[b],
            ) by {
                assert(nv_inv(node_view(*old(self))));
                if a < m.len() && (i >= self.children.len() || a != i) {
                    assert(fm[a].1[b] == m[a].1[b]);
                }
            }
        }
    }

    /// Adds one more child under a given key. Existing children are kept;
    /// the new child comes after them.
    pub fn add_child(&mut self, key: &str, child: Node)
        requires
            old(self).inv(),
            child.inv(),
        ensures
            final(self).inv(),
            final(self)@.kids == mm_add(old(self)@.kids, key@, node_view(child)),
            final(self)@.props == old(self)@.props,
    {
        broadcast use group_node_view_lemmas;

        let ghost m = old(self)@.kids;
        let ghost cv = node_view(child);
        proof {
            mm_index_of_props(m, key@);
            mm_add_wf(m, key@, cv);
        }
        let i = find_child(&self.children, key);
        if i < self.children.len() {
            let e = &mut self.children[i];
            proof {
                kid_group_view_push(e.1@, child);
            }
            e.1.push(child);
            proof {
                kids_view_index(old(self).children@, i as int);
                assert(self.children@ =~= old(self).children@.update(
                    i as int,
                    self.children@[i as int],
                ));
                kids_view_update(old(self).children@, i as int, self.children@[i as int]);
                assert(kid_group_view(self.children@[i as int].1@) =~= m[i as int].1.push(cv));
                assert(self@.kids =~~= mm_add(m, key@, cv));
            }
        } else {
            let mut vs: Vec<Node> = Vec::new();
            vs.push(child);
            self.children.push((key.to_owned(), vs));
            proof {
                kids_view_push(old(self).children@, self.children@.last());
                assert(self.children@.drop_last() =~= old(self).children@);
                assert(self.children@ =~= old(self).children@.push(self.children@.last()));
                assert(kid_group_view(vs@) =~= seq![cv]);
                assert(self@.kids =~~= mm_add(m, key@, cv));
            }
        }
        proof {
            let fm = self@.kids;
            assert forall|a: int, b: int|
                0 <= a < fm.len() && 0 <= b < fm[a].1.len() implies nv_inv(
                #[trigger] fm[a].1[b],
            ) by {
                assert(nv_inv(node_view(*old(self))));
                if a < m.len() && b < m[a].1.len() {
                    assert(fm[a].1[b] == m[a].1[b]);
                } else {
                    assert(fm[a].1[b] == cv);
                }
            }
        }
    }

    /// Removes all children stored under the given key and returns them in
    /// stored order.
    pub fn clear_child(&mut self, key: &str) -> (r: Vec<Node>)
        requires
            old(self).inv(),
        ensures
            final(self).inv(),
            kid_group_view(r@) == mm_group(old(self)@.kids, key@),
            final(self)@.kids == mm_remove(old(self)@.kids, key@),
            final(self)@.props == old(self)@.props,
    {
        broadcast use group_node_view_lemmas;

        let ghost m = old(self)@.kids;
        proof {
            mm_index_of_props(m, key@);
            mm_remove_wf(m, key@);
        }
        let i = find_child(&self.children, key);
        if i < self.children.len() {
            let e = self.children.remove(i);
            proof {
                kids_view_remove(old(self).children@, i as int);
                kids_view_index(old(self).children@, i as int);
                assert(self@.kids =~~= mm_remove(m, key@));
                let fm = self@.kids;
                assert forall|a: int, b: int|
                    0 <= a < fm.len() && 0 <= b < fm[a].1.len() implies nv_inv(
                    #[trigger] fm[a].1[b],
                ) by {
                    assert(nv_inv(node_view(*old(self))));
                    if a < i {
                        assert(fm[a].1[b] == m[a].1[b]);
                    } else {
                        assert(fm[a].1[b] == m[a + 1].1[b]);
                    }
                }
            }
            e.1
        } else {
            proof {
                assert(kid_group_view(Seq::<Node>::empty()) =~= Seq::<NodeView>::empty());
            }
            Vec::new()
        }
    }

    /// Removes every child of this node and returns all key-child pairs in
    /// original flattened order.
    pub fn clear_children(&mut self) -> (r: Vec<(String, Node)>)
        requires
            old(self).inv(),
        ensures
            final(self).inv(),
            kid_pairs_view(r@) == mm_flat(old(self)@.kids),
            final(self)@.kids.len() == 0,
            final(self)@.props == old(self)@.props,
    {
        broadcast use group_node_view_lemmas;

        let ghost m0 = old(self)@.kids;
        proof {
            assert forall|a: int, b: int|
                0 <= a < self.children@.len() && 0 <= b
                    < self.children@[a].1@.len() implies nv_inv(
                node_view(#[trigger] self.children@[a].1@[b]),
            ) by {
                kids_view_index(self.children@, a);
                kid_group_view_index(self.children@[a].1@, b);
                assert(nv_inv(node_view(*old(self))));
                assert(node_view(*old(self)).kids[a].1[b] == node_view(
                    self.children@[a].1@[b],
                ));
            }
            assert(kid_pairs_view(Seq::<(String, Node)>::empty()) =~= Seq::empty());
        }
        let mut r: Vec<(String, Node)> = Vec::new();
        while self.children.len() > 0
            invariant
                old(self).inv(),
                self.properties == old(self).properties,
                mm_wf(kids_view(self.children@)),
                forall|a: int, b: int|
                    0 <= a < self.children@.len() && 0 <= b < self.children@[a].1@.len()
                        ==> nv_inv(node_view(#[trigger] self.children@[a].1@[b])),
                kid_pairs_view(r@) + mm_flat(kids_view(self.children@)) == mm_flat(m0),
            decreases self.children@.len(),
        {
            let ghost mcur = kids_view(self.children@);
            let ghost cprev = self.children@;
            let mut e = self.children.remove(0);
            let ghost ge = (e.0@, kid_group_view(e.1@));
            proof {
                kids_view_remove(cprev, 0);
                kids_view_index(cprev, 0);
                assert(kids_view(self.children@) =~= mcur.drop_first());
                assert(ge == mcur[0]);
                assert(mm_flat(mcur) == group_flat(ge) + mm_flat(mcur.drop_first()));
                assert forall|a: int, b: int|
                    0 <= a < self.children@.len() && 0 <= b
                        < self.children@[a].1@.len() implies nv_inv(
                    node_view(#[trigger] self.children@[a].1@[b]),
                ) by {
                    assert(self.children@[a] == cprev[a + 1]);
                }
                assert forall|i: int, j: int|
                    0 <= i < kids_view(self.children@).len() && 0 <= j
                        < kids_view(self.children@).len() && i < j implies #[trigger] kids_view(
                    self.children@,
                )[i].0 != #[trigger] kids_view(self.children@)[j].0 by {
                    assert(kids_view(self.children@)[i] == mcur[i + 1]);
                    assert(kids_view(self.children@)[j] == mcur[j + 1]);
                }
                assert forall|i: int|
                    0 <= i < kids_view(self.children@).len() implies #[trigger] kids_view(
                    self.children@,
                )[i].1.len() > 0 by {
                    assert(kids_view(self.children@)[i] == mcur[i + 1]);
                }
            }
            // take the nodes out of the group from the front
            let ghost g0 = e.1@;
            proof {
                kid_group_view_len(g0);
                assert(g0.len() == e.1.len());
            }
            let ghost r0 = kid_pairs_view(r@);
            let mut vi: usize = 0;
            while e.1.len() > 0
                invariant
                    ge == (e.0@, kid_group_view(g0)),
                    ge.1.len() == g0.len(),
                    g0.len() <= usize::MAX,
                    vi == g0.len() - e.1@.len(),
                    0 <= vi <= g0.len(),
                    e.1@ =~= g0.subrange(vi as int, g0.len() as int),
                    kid_pairs_view(r@) == r0 + group_flat(ge).subrange(0, vi as int),
                decreases e.1@.len(),
            {
                let ghost rprev = r@;
                let n = e.1.remove(0);
                let key_copy = e.0.clone();
                r.push((key_copy, n));
                proof {
                    kid_group_view_index(g0, vi as int);
                    assert(group_flat(ge)[vi as int] == (e.0@, kid_group_view(g0)[vi as int]));
                    assert(kid_group_view(g0)[vi as int] == node_view(g0[vi as int]));
                    assert(kid_pairs_view(r@) =~= kid_pairs_view(rprev).push(
                        (e.0@, node_view(g0[vi as int])),
                    ));
                    assert(group_flat(ge).subrange(0, vi + 1) =~= group_flat(ge).subrange(
                        0,
                        vi as int,
                    ).push(group_flat(ge)[vi as int]));
                }
                vi += 1;
                proof {
                    assert(e.1@ =~= g0.subrange(vi as int, g0.len() as int));
                    assert(kid_pairs_view(r@) =~= r0 + group_flat(ge).subrange(0, vi as int));
                }
            }
            proof {
                assert(group_flat(ge).subrange(0, g0.len() as int) =~= group_flat(ge));
                assert(kid_pairs_view(r@) + mm_flat(kids_view(self.children@)) =~= mm_flat(m0));
            }
        }
        proof {
            assert(kids_view(self.children@) =~= Seq::empty());
            assert(kid_pairs_view(r@) =~= mm_flat(m0));
        }
        r
    }

    /// Adds the given key-child pairs to this node, in order, as
    /// `add_child` would.
    pub fn extend_children(&mut self, pairs: Vec<(String, Node)>)
        requires
            old(self).inv(),
            forall|i: int| 0 <= i < pairs@.len() ==> nv_inv(node_view(#[trigger] pairs@[i].1)),
        ensures
            final(self).inv(),
            final(self)@.kids == mm_add_all(old(self)@.kids, kid_pairs_view(pairs@)),
            final(self)@.props == old(self)@.props,
    {
        let ghost all = kid_pairs_view(pairs@);
        proof {
            assert(all.subrange(0, all.len() as int) =~= all);
        }
        let mut pairs = pairs;
        let ghost pairs0 = pairs@;
        let mut i: usize = 0;
        let ghost n0 = pairs@.len() as int;
        proof {
            assert(pairs0.len() == pairs.len());
        }
        while pairs.len() > 0
            invariant
                all == kid_pairs_view(pairs0),
                n0 == pairs0.len(),
                n0 <= usize::MAX,
                all.len() == n0,
                i == n0 - pairs@.len(),
                0 <= i <= n0,
                pairs@ =~= pairs0.subrange(i as int, n0),
                forall|j: int| 0 <= j < pairs@.len() ==> nv_inv(node_view(#[trigger] pairs@[j].1)),
                self.inv(),
                self@.props == old(self)@.props,
                mm_add_all(self@.kids, all.subrange(i as int, n0)) == mm_add_all(
                    old(self)@.kids,
                    all,
                ),
            decreases pairs@.len(),
        {
            let ghost before = self@.kids;
            let p = pairs.remove(0);
            self.add_child(p.0.as_str(), p.1);
            proof {
                assert(all.len() == n0);
                assert(i < n0);
                let rest = all.subrange(i as int, n0);
                assert(rest[0] == all[i as int]);
                assert(rest.drop_first() =~= all.subrange(i + 1, n0));
                assert(mm_add_all(before, rest) == mm_add_all(
                    mm_add(before, all[i as int].0, all[i as int].1),
                    rest.drop_first(),
                ));
            }
            i += 1;
            proof {
                assert(pairs@ =~= pairs0.subrange(i as int, n0));
            }
        }
        proof {
            assert(all.subrange(n0, n0) =~= Seq::empty());
        }
    }

    /// All key-child pairs of this node, flattened: for each key in order,
    /// all its children in stored order.
    pub fn children(&self) -> (r: Vec<(&String, &Node)>)
        ensures
            r@.len() == mm_flat(self@.kids).len(),
            forall|k: int|
                0 <= k < r@.len() ==> (#[trigger] r@[k]).0@ == mm_flat(self@.kids)[k].0
                    && node_view(*r@[k].1) == mm_flat(self@.kids)[k].1,
    {
        broadcast use group_node_view_lemmas;

        let ghost m = self@.kids;
        let mut r: Vec<(&String, &Node)> = Vec::new();
        let mut gi: usize = 0;
        while gi < self.children.len()
            invariant
                0 <= gi <= self.children@.len(),
                m == kids_view(self.children@),
                m.len() == self.children@.len(),
                kref_pairs_view(r@) == mm_flat(m.subrange(0, gi as int)),
            decreases self.children@.len() - gi,
        {
            let g = &self.children[gi];
            let ghost ge = m[gi as int];
            proof {
                kids_view_index(self.children@, gi as int);
                kid_group_view_len(g.1@);
            }
            let ghost r0 = kref_pairs_view(r@);
            let mut vi: usize = 0;
            while vi < g.1.len()
                invariant
                    0 <= vi <= g.1@.len(),
                    gi < self.children@.len(),
                    g == &self.children[gi as int],
                    m == kids_view(self.children@),
                    m.len() == self.children@.len(),
                    ge == m[gi as int],
                    ge.1.len() == g.1@.len(),
                    kref_pairs_view(r@) == r0 + group_flat(ge).subrange(0, vi as int),
                decreases g.1@.len() - vi,
            {
                let ghost rprev = r@;
                r.push((&g.0, &g.1[vi]));
                proof {
                    kids_view_index(self.children@, gi as int);
                    kid_group_view_index(g.1@, vi as int);
                    assert(group_flat(ge)[vi as int] == (g.0@, node_view(g.1@[vi as int])));
                    assert(kref_pairs_view(r@) =~= kref_pairs_view(rprev).push(
                        (g.0@, node_view(g.1@[vi as int])),
                    ));
                    assert(group_flat(ge).subrange(0, vi + 1) =~= group_flat(ge).subrange(
                        0,
                        vi as int,
                    ).push(group_flat(ge)[vi as int]));
                }
                vi += 1;
            }
            proof {
                assert(group_flat(ge).subrange(0, ge.1.len() as int) =~= group_flat(ge));
                mm_flat_split(m.subrange(0, gi + 1), gi as int);
                assert(m.subrange(0, gi + 1).subrange(0, gi as int) =~= m.subrange(0, gi as int));
                let single = m.subrange(0, gi + 1).subrange(gi as int, gi + 1);
                assert(single[0] == ge);
                assert(single.drop_first() =~= Seq::empty());
                assert(mm_flat(single) == group_flat(ge) + mm_flat(Seq::empty()));
                assert(kref_pairs_view(r@) =~= mm_flat(m.subrange(0, gi + 1)));
            }
            gi += 1;
        }
        proof {
            assert(m.subrange(0, m.len() as int) =~= m);
        }
        r
    }

    /// All key-value property pairs of this node, flattened: for each key
    /// in order, all its values in stored order.
    pub fn properties(&self) -> (r: Vec<(String, String)>)
        ensures
            pairs_view(r@) == mm_flat(self@.props),
    {
        let ghost m = self@.props;
        let mut r: Vec<(String, String)> = Vec::new();
        let mut gi: usize = 0;
        while gi < self.properties.len()
            invariant
                0 <= gi <= self.properties@.len(),
                m == props_view(self.properties@),
                pairs_view(r@) == mm_flat(m.subrange(0, gi as int)),
            decreases self.properties@.len() - gi,
        {
            let g = &self.properties[gi];
            let ghost ge = m[gi as int];
            let ghost r0 = pairs_view(r@);
            let mut vi: usize = 0;
            while vi < g.1.len()
                invariant
                    0 <= vi <= g.1@.len(),
                    gi < self.properties@.len(),
                    g == &self.properties[gi as int],
                    m == props_view(self.properties@),
                    ge == m[gi as int],
                    ge.1.len() == g.1@.len(),
                    pairs_view(r@) == r0 + group_flat(ge).subrange(0, vi as int),
                decreases g.1@.len() - vi,
            {
                let ghost rprev = r@;
                r.push((g.0.clone(), g.1[vi].clone()));
                proof {
                    assert(group_flat(ge)[vi as int] == (g.0@, g.1@[vi as int]@));
                    assert(pairs_view(r@) =~= pairs_view(rprev).push((g.0@, g.1@[vi as int]@)));
                    assert(group_flat(ge).subrange(0, vi + 1) =~= group_flat(ge).subrange(
                        0,
                        vi as int,
                    ).push(group_flat(ge)[vi as int]));
                }
                vi += 1;
            }
            proof {
                assert(group_flat(ge).subrange(0, ge.1.len() as int) =~= group_flat(ge));
                mm_flat_split(m.subrange(0, gi + 1), gi as int);
                assert(m.subrange(0, gi + 1).subrange(0, gi as int) =~= m.subrange(0, gi as int));
                let single = m.subrange(0, gi + 1).subrange(gi as int, gi + 1);
                assert(single[0] == ge);
                assert(single.drop_first() =~= Seq::empty());
                assert(mm_flat(single) == group_flat(ge) + mm_flat(Seq::empty()));
                assert(pairs_view(r@) =~= mm_flat(m.subrange(0, gi + 1)));
            }
            gi += 1;
        }
        proof {
            assert(m.subrange(0, m.len() as int) =~= m);
        }
        r
    }
}

/// The view of a flat sequence of borrowed key-node pairs.
pub open spec fn kref_pairs_view(s: Seq<(&String, &Node)>) -> Seq<(Seq<char>, NodeView)> {
    s.map(|i: int, p: (&String, &Node)| (p.0@, node_view(*p.1)))
}

impl Default for Node {
    /// The empty node.
    fn default() -> (r: Node)
        ensures
            r@.props.len() == 0,
            r@.kids.len() == 0,
            r.inv(),
    {
        Node::new()
    }
}

} // verus!
