//! The formatter: turns a [`Node`] back into text, as the exact inverse
//! of the parser.
//!
//! Properties come before children, one item per line, separated by a
//! newline and four spaces of indentation per nesting level. A child with
//! no children of its own is laid out inline on a single line; one with
//! nested children gets an indented block. A string is quoted exactly
//! when it contains a space, a double quote or a newline; inside quotes,
//! `"` is written `\"` and a newline is written `\n`.

use vstd::prelude::*;

use crate::{
    group_flat, kid_group_view, kid_group_view_index, kid_group_view_len, kids_view_index,
    kids_view_len, mm_flat, mm_flat_split, node_view, Node, NodeView,
};

verus! {

/// Whether the formatter must quote this string: it contains a space, a
/// double quote, or a newline.
pub open spec fn needs_quotes(s: Seq<char>) -> bool {
    s.contains(' ') || s.contains('"') || s.contains('\n')
}

/// How one character is written inside a quoted string.
pub open spec fn esc_char(c: char) -> Seq<char> {
    if c == '"' {
        seq!['\\', '"']
    } else if c == '\n' {
        seq!['\\', 'n']
    } else {
        seq![c]
    }
}

/// The body of a quoted string: every character escaped.
pub open spec fn esc(s: Seq<char>) -> Seq<char>
    decreases s.len(),
{
    if s.len() == 0 {
        Seq::empty()
    } else {
        esc(s.drop_last()) + esc_char(s.last())
    }
}

/// One token as written: quoted and escaped when needed, bare otherwise.
pub open spec fn fmt_token(s: Seq<char>) -> Seq<char> {
    if needs_quotes(s) {
        seq!['"'] + esc(s) + seq!['"']
    } else {
        s
    }
}

/// One `key value` property as written.
pub open spec fn fmt_prop(k: Seq<char>, v: Seq<char>) -> Seq<char> {
    fmt_token(k) + seq![' '] + fmt_token(v)
}

/// Four spaces for each nesting level.
pub open spec fn indent(d: nat) -> Seq<char>
    decreases d,
{
    if d == 0 {
        Seq::empty()
    } else {
        indent((d - 1) as nat) + seq![' ', ' ', ' ', ' ']
    }
}

/// The separator written between two items of one node.
pub open spec fn nl_indent(d: nat) -> Seq<char> {
    seq!['\n'] + indent(d)
}

/// Texts joined with a separator between neighbours.
pub open spec fn join(items: Seq<Seq<char>>, sep: Seq<char>) -> Seq<char>
    decreases items.len(),
{
    if items.len() == 0 {
        Seq::empty()
    } else if items.len() == 1 {
        items[0]
    } else {
        join(items.drop_last(), sep) + sep + items.last()
    }
}

/// The property lines of a node, one text per flattened key-value pair.
pub open spec fn prop_texts(ps: Seq<(Seq<char>, Seq<char>)>) -> Seq<Seq<char>> {
    ps.map(|i: int, p: (Seq<char>, Seq<char>)| fmt_prop(p.0, p.1))
}

/// The properties of an inline child: each followed by one space.
pub open spec fn inline_props(ps: Seq<(Seq<char>, Seq<char>)>) -> Seq<char>
    decreases ps.len(),
{
    if ps.len() == 0 {
        Seq::empty()
    } else {
        inline_props(ps.drop_last()) + fmt_prop(ps.last().0, ps.last().1) + seq![' ']
    }
}

/// One `BEGIN key ... END` child as written: inline when the child has no
/// children of its own, an indented block otherwise.
pub open spec fn fmt_kid_entry(key: Seq<char>, kid: NodeView, d: nat) -> Seq<char>
    decreases kid, 4int,
{
    if kid.kids.len() == 0 {
        seq!['B', 'E', 'G', 'I', 'N', ' '] + fmt_token(key) + seq![' '] + inline_props(
            mm_flat(kid.props),
        ) + seq![' ', 'E', 'N', 'D']
    } else {
        seq!['B', 'E', 'G', 'I', 'N', ' '] + fmt_token(key) + nl_indent(d + 1) + fmt_node(
            kid,
            d + 1,
        ) + nl_indent(d) + seq!['E', 'N', 'D']
    }
}

/// The texts of one key's children, one per child.
pub open spec fn kid_group_texts(key: Seq<char>, ns: Seq<NodeView>, d: nat) -> Seq<Seq<char>>
    decreases ns, 1int,
{
    if ns.len() == 0 {
        Seq::empty()
    } else {
        seq![fmt_kid_entry(key, ns[0], d)] + kid_group_texts(key, ns.drop_first(), d)
    }
}

/// The child lines of a node, one text per flattened key-child pair.
pub open spec fn kids_texts(kids: Seq<(Seq<char>, Seq<NodeView>)>, d: nat) -> Seq<Seq<char>>
    decreases kids, 2int,
{
    if kids.len() == 0 {
        Seq::empty()
    } else {
        kid_group_texts(kids[0].0, kids[0].1, d) + kids_texts(kids.drop_first(), d)
    }
}

/// A whole node as written at nesting depth `d`: its property lines, then
/// its child lines, joined by newline-and-indentation.
pub open spec fn fmt_node(nv: NodeView, d: nat) -> Seq<char>
    decreases nv, 3int,
{
    join(prop_texts(mm_flat(nv.props)) + kids_texts(nv.kids, d), nl_indent(d))
}

/// The text of a whole document: its root node at depth zero.
pub open spec fn fmt_doc(nv: NodeView) -> Seq<char> {
    fmt_node(nv, 0)
}

/// `kids_texts` has one text per flattened key-child pair, in order.
pub proof fn kids_texts_index(kids: Seq<(Seq<char>, Seq<NodeView>)>, d: nat)
    ensures
        kids_texts(kids, d).len() == mm_flat(kids).len(),
        forall|x: int|
            0 <= x < mm_flat(kids).len() ==> #[trigger] kids_texts(kids, d)[x] == fmt_kid_entry(
                mm_flat(kids)[x].0,
                mm_flat(kids)[x].1,
                d,
            ),
    decreases kids.len(),
{
    if kids.len() > 0 {
        kids_texts_index(kids.drop_first(), d);
        kid_group_texts_index(kids[0].0, kids[0].1, d);
        assert forall|x: int| 0 <= x < mm_flat(kids).len() implies #[trigger] kids_texts(kids, d)[x]
            == fmt_kid_entry(mm_flat(kids)[x].0, mm_flat(kids)[x].1, d) by {
            let g = kid_group_texts(kids[0].0, kids[0].1, d);
            if x < g.len() {
                assert(mm_flat(kids)[x] == group_flat(kids[0])[x]);
            } else {
                assert(kids_texts(kids, d)[x] == kids_texts(kids.drop_first(), d)[x - g.len()]);
                assert(mm_flat(kids)[x] == mm_flat(kids.drop_first())[x - g.len()]);
            }
        }
    }
}

/// `kid_group_texts` has one text per child, in order.
pub proof fn kid_group_texts_index(key: Seq<char>, ns: Seq<NodeView>, d: nat)
    ensures
        kid_group_texts(key, ns, d).len() == ns.len(),
        forall|x: int|
            0 <= x < ns.len() ==> #[trigger] kid_group_texts(key, ns, d)[x] == fmt_kid_entry(
                key,
                ns[x],
                d,
            ),
    decreases ns.len(),
{
    if ns.len() > 0 {
        kid_group_texts_index(key, ns.drop_first(), d);
    }
}

/// The height of a node: one more than the tallest child.
pub open spec fn nv_height(nv: NodeView) -> nat
    decreases nv, 2int,
{
    1 + kids_height(nv.kids)
}

/// The tallest height among all child groups.
pub open spec fn kids_height(kids: Seq<(Seq<char>, Seq<NodeView>)>) -> nat
    decreases kids, 1int,
{
    if kids.len() == 0 {
        0
    } else if group_height(kids[0].1) >= kids_height(kids.drop_first()) {
        group_height(kids[0].1)
    } else {
        kids_height(kids.drop_first())
    }
}

/// The tallest height among the nodes of one group.
pub open spec fn group_height(ns: Seq<NodeView>) -> nat
    decreases ns, 0int,
{
    if ns.len() == 0 {
        0
    } else if nv_height(ns[0]) >= group_height(ns.drop_first()) {
        nv_height(ns[0])
    } else {
        group_height(ns.drop_first())
    }
}

/// Every child is lower than its parent.
pub proof fn kids_height_bound(kids: Seq<(Seq<char>, Seq<NodeView>)>, i: int, j: int)
    requires
        0 <= i < kids.len(),
        0 <= j < kids[i].1.len(),
    ensures
        nv_height(kids[i].1[j]) <= kids_height(kids),
    decreases kids.len(), j,
{
    if i == 0 {
        group_height_bound(kids[0].1, j);
        assert(nv_height(kids[i].1[j]) <= group_height(kids[0].1));
    } else {
        kids_height_bound(kids.drop_first(), i - 1, j);
        assert(kids.drop_first()[i - 1] == kids[i]);
    }
}

/// The bound inside one group.
pub proof fn group_height_bound(ns: Seq<NodeView>, j: int)
    requires
        0 <= j < ns.len(),
    ensures
        nv_height(ns[j]) <= group_height(ns),
    decreases ns.len(),
{
    if j > 0 {
        group_height_bound(ns.drop_first(), j - 1);
        assert(ns.drop_first()[j - 1] == ns[j]);
    }
}

/// Extending a joined prefix by one more item appends the separator and
/// the item.
pub proof fn join_take_step(items: Seq<Seq<char>>, sep: Seq<char>, k: int)
    requires
        0 <= k < items.len(),
    ensures
        k == 0 ==> join(items.take(1), sep) == items[0],
        k > 0 ==> join(items.take(k + 1), sep) == join(items.take(k), sep) + sep + items[k],
{
    if k == 0 {
        assert(join(items.take(1), sep) == items.take(1)[0]);
    } else {
        assert(items.take(k + 1).drop_last() =~= items.take(k));
        assert(items.take(k + 1).last() == items[k]);
    }
}


/// Whether a token needs quoting, over its characters.
fn token_needs_quotes(cs: &Vec<char>) -> (r: bool)
    ensures
        r == needs_quotes(cs@),
{
    let mut special = false;
    let mut i: usize = 0;
    while i < cs.len()
        invariant
            0 <= i <= cs@.len(),
            special == (exists|j: int|
                0 <= j < i && (cs@[j] == ' ' || cs@[j] == '"' || cs@[j] == '\n')),
        decreases cs@.len() - i,
    {
        let c = cs[i];
        if c == ' ' || c == '"' || c == '\n' {
            special = true;
            assert(cs@[i as int] == ' ' || cs@[i as int] == '"' || cs@[i as int] == '\n');
        }
        i += 1;
    }
    proof {
        if needs_quotes(cs@) {
            if cs@.contains(' ') {
                let j = choose|j: int| 0 <= j < cs@.len() && cs@[j] == ' ';
                assert(0 <= j < cs@.len() && (cs@[j] == ' ' || cs@[j] == '"' || cs@[j] == '\n'));
            } else if cs@.contains('"') {
                let j = choose|j: int| 0 <= j < cs@.len() && cs@[j] == '"';
                assert(0 <= j < cs@.len() && (cs@[j] == ' ' || cs@[j] == '"' || cs@[j] == '\n'));
            } else {
                let j = choose|j: int| 0 <= j < cs@.len() && cs@[j] == '\n';
                assert(0 <= j < cs@.len() && (cs@[j] == ' ' || cs@[j] == '"' || cs@[j] == '\n'));
            }
        }
        if special {
            let j = choose|j: int|
                0 <= j < cs@.len() && (cs@[j] == ' ' || cs@[j] == '"' || cs@[j] == '\n');
            if cs@[j] == ' ' {
                assert(cs@.contains(' '));
            } else if cs@[j] == '"' {
                assert(cs@.contains('"'));
            } else {
                assert(cs@.contains('\n'));
            }
        }
    }
    special
}

/// Serializes nodes into a growing string at a given nesting depth.
pub struct Writer {
    pub out: String,
    pub depth: usize,
}

impl Writer {
    /// A writer with empty output at depth zero.
    pub fn new() -> (r: Writer)
        ensures
            r.out@ == Seq::<char>::empty(),
            r.depth == 0,
    {
        Writer { out: String::new(), depth: 0 }
    }

    /// Writes one token, quoting and escaping it if needed.
    pub fn write_str(&mut self, value: &str)
        ensures
            final(self).out@ == old(self).out@ + fmt_token(value@),
            final(self).depth == old(self).depth,
    {
        let cs = crate::text::str_chars(value);
        if token_needs_quotes(&cs) {
            crate::text::push_char(&mut self.out, '"');
            let mut i: usize = 0;
            while i < cs.len()
                invariant
                    0 <= i <= cs@.len(),
                    cs@ == value@,
                    self.depth == old(self).depth,
                    self.out@ == old(self).out@ + seq!['"'] + esc(cs@.take(i as int)),
                decreases cs@.len() - i,
            {
                let c = cs[i];
                if c == '"' {
                    crate::text::push_char(&mut self.out, '\\');
                    crate::text::push_char(&mut self.out, '"');
                } else if c == '\n' {
                    crate::text::push_char(&mut self.out, '\\');
                    crate::text::push_char(&mut self.out, 'n');
                } else {
                    crate::text::push_char(&mut self.out, c);
                }
                proof {
                    assert(cs@.take(i + 1).drop_last() =~= cs@.take(i as int));
                    assert(cs@.take(i + 1).last() == cs@[i as int]);
                    assert(esc(cs@.take(i + 1)) == esc(cs@.take(i as int)) + esc_char(
                        cs@[i as int],
                    ));
                    assert(self.out@ =~= old(self).out@ + seq!['"'] + esc(cs@.take(i + 1)));
                }
                i += 1;
            }
            crate::text::push_char(&mut self.out, '"');
            proof {
                assert(cs@.take(cs@.len() as int) =~= cs@);
                assert(self.out@ =~= old(self).out@ + fmt_token(value@));
            }
        } else {
            self.out.append(value);
        }
    }

    /// Writes one `key value` property.
    pub fn write_property(&mut self, key: &str, value: &str)
        ensures
            final(self).out@ == old(self).out@ + fmt_prop(key@, value@),
            final(self).depth == old(self).depth,
    {
        self.write_str(key);
        crate::text::push_char(&mut self.out, ' ');
        self.write_str(value);
        proof {
            assert(self.out@ =~= old(self).out@ + fmt_prop(key@, value@));
        }
    }

    /// Writes a newline and the indentation of the current depth.
    pub fn write_newline(&mut self)
        ensures
            final(self).out@ == old(self).out@ + nl_indent(old(self).depth as nat),
            final(self).depth == old(self).depth,
    {
        crate::text::push_char(&mut self.out, '\n');
        let mut i: usize = 0;
        while i < self.depth
            invariant
                0 <= i <= self.depth,
                self.depth == old(self).depth,
                self.out@ == old(self).out@ + seq!['\n'] + indent(i as nat),
            decreases self.depth - i,
        {
            self.out.append("    ");
            proof {
                reveal_strlit("    ");
                assert("    "@ =~= seq![' ', ' ', ' ', ' ']);
                assert(self.out@ =~= old(self).out@ + seq!['\n'] + indent((i + 1) as nat));
            }
            i += 1;
        }
        proof {
            assert(self.out@ =~= old(self).out@ + nl_indent(old(self).depth as nat));
        }
    }
}

impl Writer {
    /// Writes the properties of an inline child: each one followed by a
    /// single space.
    #[verifier::loop_isolation(false)]
    fn write_inline_props(&mut self, node: &Node)
        ensures
            final(self).out@ == old(self).out@ + inline_props(mm_flat(node_view(*node).props)),
            final(self).depth == old(self).depth,
    {
        let ghost m = node_view(*node).props;
        let ghost fp = mm_flat(m);
        proof {
            assert(inline_props(fp.take(0)) =~= Seq::empty());
            assert(self.out@ =~= old(self).out@ + inline_props(fp.take(0)));
        }
        let mut gi: usize = 0;
        while gi < node.properties.len()
            invariant
                0 <= gi <= node.properties@.len(),
                m == node_view(*node).props,
                fp == mm_flat(m),
                m.len() == node.properties@.len(),
                self.depth == old(self).depth,
                self.out@ == old(self).out@ + inline_props(
                    fp.take(mm_flat(m.subrange(0, gi as int)).len() as int),
                ),
                mm_flat(m.subrange(0, gi as int)).len() <= fp.len(),
            decreases node.properties@.len() - gi,
        {
            let ghost base = mm_flat(m.subrange(0, gi as int)).len() as int;
            let ghost ge = m[gi as int];
            let g = &node.properties[gi];
            proof {
                mm_flat_split(m, gi as int);
                let restm = m.subrange(gi as int, m.len() as int);
                assert(restm[0] == ge);
                assert(restm.drop_first() =~= m.subrange(gi + 1, m.len() as int));
                assert(mm_flat(restm) == group_flat(ge) + mm_flat(restm.drop_first()));
                assert(fp.subrange(base, base + ge.1.len() as int) =~= group_flat(ge));
            }
            let mut vi: usize = 0;
            while vi < g.1.len()
                invariant
                    0 <= vi <= g.1@.len(),
                    gi < node.properties@.len(),
                    g == &node.properties[gi as int],
                    m == node_view(*node).props,
                    fp == mm_flat(m),
                    ge == m[gi as int],
                    ge.1.len() == g.1@.len(),
                    base == mm_flat(m.subrange(0, gi as int)).len(),
                    base + ge.1.len() <= fp.len(),
                    fp.subrange(base, base + ge.1.len() as int) == group_flat(ge),
                    self.depth == old(self).depth,
                    self.out@ == old(self).out@ + inline_props(fp.take(base + vi)),
                decreases g.1@.len() - vi,
            {
                self.write_property(g.0.as_str(), g.1[vi].as_str());
                crate::text::push_char(&mut self.out, ' ');
                proof {
                    assert(fp[base + vi] == group_flat(ge)[vi as int]);
                    assert(fp[base + vi] == (g.0@, g.1@[vi as int]@));
                    assert(fp.take(base + vi + 1).drop_last() =~= fp.take(base + vi));
                    assert(inline_props(fp.take(base + vi + 1)) == inline_props(
                        fp.take(base + vi),
                    ) + fmt_prop(g.0@, g.1@[vi as int]@) + seq![' ']);
                    assert(self.out@ =~= old(self).out@ + inline_props(fp.take(base + vi + 1)));
                }
                vi += 1;
            }
            proof {
                mm_flat_split(m.subrange(0, gi + 1), gi as int);
                assert(m.subrange(0, gi + 1).subrange(0, gi as int) =~= m.subrange(0, gi as int));
                let single = m.subrange(0, gi + 1).subrange(gi as int, gi + 1);
                assert(single[0] == ge);
                assert(single.drop_first() =~= Seq::empty());
                assert(mm_flat(single) == group_flat(ge) + mm_flat(Seq::empty()));
                assert(mm_flat(m.subrange(0, gi + 1)).len() == base + ge.1.len());
                mm_flat_split(m, gi + 1);
            }
            gi += 1;
        }
        proof {
            assert(m.subrange(0, m.len() as int) =~= m);
            assert(fp.take(fp.len() as int) =~= fp);
        }
    }

    /// Writes one `BEGIN key ... END` child entry at the current depth.
    #[verifier::rlimit(60)]
    pub fn write_child_entry(&mut self, key: &str, child: &Node)
        requires
            old(self).depth + 1 + nv_height(node_view(*child)) <= usize::MAX,
        ensures
            final(self).out@ == old(self).out@ + fmt_kid_entry(key@, node_view(*child), old(
                self,
            ).depth as nat),
            final(self).depth == old(self).depth,
        decreases *child, 1int,
    {
        let ghost d = old(self).depth as nat;
        self.out.append("BEGIN ");
        proof {
            reveal_strlit("BEGIN ");
            assert("BEGIN "@ =~= seq!['B', 'E', 'G', 'I', 'N', ' ']);
        }
        self.write_str(key);
        if child.children.len() == 0 {
            proof {
                kids_view_len(child.children@);
                assert(node_view(*child).kids.len() == 0);
            }
            crate::text::push_char(&mut self.out, ' ');
            self.write_inline_props(child);
            crate::text::push_char(&mut self.out, ' ');
            self.out.append("END");
            proof {
                reveal_strlit("END");
                assert("END"@ =~= seq!['E', 'N', 'D']);
                assert(self.out@ =~= old(self).out@ + fmt_kid_entry(
                    key@,
                    node_view(*child),
                    d,
                ));
            }
        } else {
            proof {
                kids_view_len(child.children@);
                assert(node_view(*child).kids.len() > 0);
            }
            self.depth += 1;
            self.write_newline();
            self.write_node(child);
            self.depth -= 1;
            self.write_newline();
            self.out.append("END");
            proof {
                reveal_strlit("END");
                assert("END"@ =~= seq!['E', 'N', 'D']);
                assert(self.out@ =~= old(self).out@ + fmt_kid_entry(
                    key@,
                    node_view(*child),
                    d,
                ));
            }
        }
    }

    /// Writes a whole node at the current depth: property lines first,
    /// then child lines, separated by newline-and-indentation.
    #[verifier::loop_isolation(false)]
    #[verifier::rlimit(60)]
    pub fn write_node(&mut self, node: &Node)
        requires
            old(self).depth + nv_height(node_view(*node)) <= usize::MAX,
        ensures
            final(self).out@ == old(self).out@ + fmt_node(node_view(*node), old(
                self,
            ).depth as nat),
            final(self).depth == old(self).depth,
        decreases *node, 0int,
    {
        broadcast use crate::group_node_view_lemmas;

        let ghost nv = node_view(*node);
        let ghost d = old(self).depth as nat;
        let ghost sep = nl_indent(d);
        let ghost mp = nv.props;
        let ghost mk = nv.kids;
        let ghost fp = mm_flat(mp);
        let ghost fk = mm_flat(mk);
        let ghost items = prop_texts(fp) + kids_texts(mk, d);
        proof {
            kids_texts_index(mk, d);
            kids_view_len(node.children@);
            assert(join(items.take(0), sep) =~= Seq::empty());
            assert(self.out@ =~= old(self).out@ + join(items.take(0), sep));
        }
        let mut first = true;
        let mut gi: usize = 0;
        while gi < node.properties.len()
            invariant
                0 <= gi <= node.properties@.len(),
                nv == node_view(*node),
                mp == nv.props,
                fp == mm_flat(mp),
                items == prop_texts(fp) + kids_texts(mk, d),
                mp.len() == node.properties@.len(),
                self.depth == old(self).depth,
                d == old(self).depth as nat,
                first == (mm_flat(mp.subrange(0, gi as int)).len() == 0),
                mm_flat(mp.subrange(0, gi as int)).len() <= fp.len(),
                self.out@ == old(self).out@ + join(
                    items.take(mm_flat(mp.subrange(0, gi as int)).len() as int),
                    sep,
                ),
            decreases node.properties@.len() - gi,
        {
            let ghost base = mm_flat(mp.subrange(0, gi as int)).len() as int;
            let ghost ge = mp[gi as int];
            let g = &node.properties[gi];
            proof {
                mm_flat_split(mp, gi as int);
                let restm = mp.subrange(gi as int, mp.len() as int);
                assert(restm[0] == ge);
                assert(restm.drop_first() =~= mp.subrange(gi + 1, mp.len() as int));
                assert(mm_flat(restm) == group_flat(ge) + mm_flat(restm.drop_first()));
                assert(fp.subrange(base, base + ge.1.len() as int) =~= group_flat(ge));
            }
            let mut vi: usize = 0;
            while vi < g.1.len()
                invariant
                    0 <= vi <= g.1@.len(),
                    gi < node.properties@.len(),
                    g == &node.properties[gi as int],
                    nv == node_view(*node),
                    mp == nv.props,
                    fp == mm_flat(mp),
                    items == prop_texts(fp) + kids_texts(mk, d),
                    ge == mp[gi as int],
                    ge.1.len() == g.1@.len(),
                    base == mm_flat(mp.subrange(0, gi as int)).len(),
                    base + ge.1.len() <= fp.len(),
                    fp.subrange(base, base + ge.1.len() as int) == group_flat(ge),
                    self.depth == old(self).depth,
                    d == old(self).depth as nat,
                    first == (base + vi == 0),
                    self.out@ == old(self).out@ + join(items.take(base + vi), sep),
                decreases g.1@.len() - vi,
            {
                if !first {
                    self.write_newline();
                }
                first = false;
                self.write_property(g.0.as_str(), g.1[vi].as_str());
                proof {
                    assert(fp[base + vi] == group_flat(ge)[vi as int]);
                    assert(fp[base + vi] == (g.0@, g.1@[vi as int]@));
                    assert(items[base + vi] == fmt_prop(g.0@, g.1@[vi as int]@));
                    join_take_step(items, sep, base + vi);
                    assert(self.out@ =~= old(self).out@ + join(items.take(base + vi + 1), sep));
                }
                vi += 1;
            }
            proof {
                mm_flat_split(mp.subrange(0, gi + 1), gi as int);
                assert(mp.subrange(0, gi + 1).subrange(0, gi as int) =~= mp.subrange(0, gi as int));
                let single = mp.subrange(0, gi + 1).subrange(gi as int, gi + 1);
                assert(single[0] == ge);
                assert(single.drop_first() =~= Seq::empty());
                assert(mm_flat(single) == group_flat(ge) + mm_flat(Seq::empty()));
                assert(mm_flat(mp.subrange(0, gi + 1)).len() == base + ge.1.len());
                mm_flat_split(mp, gi + 1);
            }
            gi += 1;
        }
        proof {
            assert(mp.subrange(0, mp.len() as int) =~= mp);
        }
        // children
        let ghost np = fp.len() as int;
        let mut gk: usize = 0;
        while gk < node.children.len()
            invariant
                0 <= gk <= node.children@.len(),
                nv == node_view(*node),
                mk == nv.kids,
                fk == mm_flat(mk),
                fp == mm_flat(nv.props),
                np == fp.len(),
                items == prop_texts(fp) + kids_texts(mk, d),
                items.len() == np + fk.len(),
                mk.len() == node.children@.len(),
                old(self).depth + nv_height(nv) <= usize::MAX,
                self.depth == old(self).depth,
                d == old(self).depth as nat,
                first == (np + mm_flat(mk.subrange(0, gk as int)).len() == 0),
                mm_flat(mk.subrange(0, gk as int)).len() <= fk.len(),
                self.out@ == old(self).out@ + join(
                    items.take(np + mm_flat(mk.subrange(0, gk as int)).len() as int),
                    sep,
                ),
            decreases node.children@.len() - gk,
        {
            let ghost base = np + mm_flat(mk.subrange(0, gk as int)).len() as int;
            let ghost ge = mk[gk as int];
            let g = &node.children[gk];
            proof {
                kids_view_index(node.children@, gk as int);
                kid_group_view_len(g.1@);
                mm_flat_split(mk, gk as int);
                let restm = mk.subrange(gk as int, mk.len() as int);
                assert(restm[0] == ge);
                assert(restm.drop_first() =~= mk.subrange(gk + 1, mk.len() as int));
                assert(mm_flat(restm) == group_flat(ge) + mm_flat(restm.drop_first()));
                assert(fk.subrange(base - np, base - np + ge.1.len() as int) =~= group_flat(ge));
            }
            let mut vi: usize = 0;
            while vi < g.1.len()
                invariant
                    0 <= vi <= g.1@.len(),
                    gk < node.children@.len(),
                    g == &node.children[gk as int],
                    nv == node_view(*node),
                    mk == nv.kids,
                    fk == mm_flat(mk),
                    fp == mm_flat(nv.props),
                    np == fp.len(),
                    items == prop_texts(fp) + kids_texts(mk, d),
                    items.len() == np + fk.len(),
                    ge == mk[gk as int],
                    ge.1 == kid_group_view(g.1@),
                    ge.0 == g.0@,
                    ge.1.len() == g.1@.len(),
                    base == np + mm_flat(mk.subrange(0, gk as int)).len(),
                    base - np + ge.1.len() <= fk.len(),
                    fk.subrange(base - np, base - np + ge.1.len() as int) == group_flat(ge),
                    old(self).depth + nv_height(nv) <= usize::MAX,
                    self.depth == old(self).depth,
                    d == old(self).depth as nat,
                    first == (base + vi == 0),
                    self.out@ == old(self).out@ + join(items.take(base + vi), sep),
                decreases g.1@.len() - vi,
            {
                if !first {
                    self.write_newline();
                }
                first = false;
                let child = &g.1[vi];
                proof {
                    kid_group_view_index(g.1@, vi as int);
                    assert(fk[base - np + vi] == group_flat(ge)[vi as int]);
                    assert(fk[base - np + vi] == (g.0@, node_view(*child)));
                    assert(items[base + vi] == kids_texts(mk, d)[base - np + vi]);
                    kids_texts_index(mk, d);
                    assert(items[base + vi] == fmt_kid_entry(g.0@, node_view(*child), d));
                    kids_height_bound(mk, gk as int, vi as int);
                    assert(nv_height(node_view(*child)) <= kids_height(mk));
                }
                self.write_child_entry(g.0.as_str(), child);
                proof {
                    join_take_step(items, sep, base + vi);
                    assert(self.out@ =~= old(self).out@ + join(items.take(base + vi + 1), sep));
                }
                vi += 1;
            }
            proof {
                mm_flat_split(mk.subrange(0, gk + 1), gk as int);
                assert(mk.subrange(0, gk + 1).subrange(0, gk as int) =~= mk.subrange(0, gk as int));
                let single = mk.subrange(0, gk + 1).subrange(gk as int, gk + 1);
                assert(single[0] == ge);
                assert(single.drop_first() =~= Seq::empty());
                assert(mm_flat(single) == group_flat(ge) + mm_flat(Seq::empty()));
                assert(mm_flat(mk.subrange(0, gk + 1)).len() == base - np + ge.1.len());
                mm_flat_split(mk, gk + 1);
            }
            gk += 1;
        }
        proof {
            assert(mk.subrange(0, mk.len() as int) =~= mk);
            assert(items.take(np + fk.len() as int) =~= items);
        }
    }
}

impl Node {
    /// The text of this node: what the parser reads back into an equal
    /// node. The height bound only rules out trees too deep to exist in
    /// memory.
    pub fn to_text(&self) -> (r: String)
        requires
            nv_height(self@) <= usize::MAX,
        ensures
            r@ == fmt_doc(self@),
    {
        let mut w = Writer::new();
        w.write_node(self);
        proof {
            assert(w.out@ =~= fmt_doc(self@));
        }
        w.out
    }
}

} // verus!
