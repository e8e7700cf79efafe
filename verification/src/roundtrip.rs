//! The round-trip laws: parsing what the formatter wrote gives back the
//! same node, and formatting is idempotent.
//!
//! The laws hold of well-formed nodes (see [`wf_node`]): distinct keys
//! with at least one value each, and strings the format can carry. A
//! string the formatter leaves bare must be non-empty and free of
//! whitespace, or it would merge with its neighbours; a quoted string
//! must be free of backslashes, since the parser decodes `\"` and `\n`
//! and drops any other backslash; and a bare property key must not begin
//! with `BEGIN`, nor with `END` inside a child, or the parser would take
//! it for a block boundary. The empty string, a value holding a tab, or a
//! quoted value holding a backslash, all fall outside these laws, and do
//! not survive a round trip.

use vstd::prelude::*;

use crate::format::{
    esc, esc_char, fmt_doc, fmt_kid_entry, fmt_node, fmt_prop, fmt_token, indent, inline_props,
    join, kids_height_bound, kids_texts, kids_texts_index, needs_quotes, nl_indent, nv_height,
    prop_texts,
};
use crate::parse::{
    begin_at, empty_nv, end_at, next_pos, nv_add_kid, nv_add_prop, sp_attr, sp_node, sp_parse,
    sp_plain_end, sp_quoted, sp_skip_ws, sp_skip_ws_props, sp_string, starts_with, Parsed,
};
use crate::text::is_ws;
use crate::{group_flat, mm_add, mm_flat, mm_index_of, mm_index_of_props, mm_wf, NodeView};

verus! {

/// Whether `pat` is a prefix of `s`.
pub open spec fn has_prefix(s: Seq<char>, pat: Seq<char>) -> bool {
    pat.len() <= s.len() && s.subrange(0, pat.len() as int) == pat
}

/// A string the format carries faithfully: quoted ones must be free of
/// backslashes, bare ones must be non-empty and free of whitespace.
pub open spec fn wf_string(s: Seq<char>) -> bool {
    if needs_quotes(s) {
        !s.contains('\\')
    } else {
        s.len() > 0 && (forall|i: int| 0 <= i < s.len() ==> !is_ws(#[trigger] s[i]))
    }
}

/// A property key the parser reads back as one: additionally, a bare key
/// must not look like a block boundary at its position.
pub open spec fn wf_key(s: Seq<char>, nested: bool) -> bool {
    wf_string(s) && (needs_quotes(s) || (!has_prefix(s, seq!['B', 'E', 'G', 'I', 'N']) && (nested
        ==> !has_prefix(s, seq!['E', 'N', 'D']))))
}

/// A node the format carries faithfully, at root level (`nested` false)
/// or as a child of another node (`nested` true): well-formed multi-maps,
/// well-formed strings, recursively in every child.
pub open spec fn wf_node(nv: NodeView, nested: bool) -> bool
    decreases nv,
{
    &&& mm_wf(nv.props)
    &&& mm_wf(nv.kids)
    &&& forall|i: int| 0 <= i < nv.props.len() ==> wf_key(#[trigger] nv.props[i].0, nested)
    &&& forall|i: int, j: int|
        0 <= i < nv.props.len() && 0 <= j < nv.props[i].1.len() ==> wf_string(
            #[trigger] nv.props[i].1[j],
        )
    &&& forall|i: int| 0 <= i < nv.kids.len() ==> wf_string(#[trigger] nv.kids[i].0)
    &&& forall|i: int, j: int|
        0 <= i < nv.kids.len() && 0 <= j < nv.kids[i].1.len() ==> wf_node(
            #[trigger] nv.kids[i].1[j],
            true,
        )
}

// ---------------------------------------------------------------------------
// Characterizing the token readers on formatted text.
// ---------------------------------------------------------------------------

/// A subrange equality, character by character.
pub proof fn lemma_seq_at(text: Seq<char>, pos: int, pat: Seq<char>)
    requires
        0 <= pos,
        pos + pat.len() <= text.len(),
        text.subrange(pos, pos + pat.len() as int) == pat,
    ensures
        forall|x: int| 0 <= x < pat.len() ==> text[pos + x] == #[trigger] pat[x],
{
    assert forall|x: int| 0 <= x < pat.len() implies text[pos + x] == #[trigger] pat[x] by {
        assert(text.subrange(pos, pos + pat.len() as int)[x] == text[pos + x]);
    }
}

/// Skipping whitespace from `pos` lands exactly at `q` when everything
/// before `q` is whitespace and `q` is the end or non-whitespace.
pub proof fn lemma_skip_ws_exact(text: Seq<char>, pos: int, q: int)
    requires
        0 <= pos <= q <= text.len(),
        forall|j: int| pos <= j < q ==> is_ws(#[trigger] text[j]),
        q == text.len() || !is_ws(text[q]),
    ensures
        sp_skip_ws(text, pos) == q,
    decreases q - pos,
{
    if pos < q {
        lemma_skip_ws_exact(text, pos + 1, q);
    }
}

/// A plain token from `pos` ends exactly at `q` when everything before
/// `q` is non-whitespace and `q` is the end or whitespace.
pub proof fn lemma_plain_exact(text: Seq<char>, pos: int, q: int)
    requires
        0 <= pos <= q <= text.len(),
        forall|j: int| pos <= j < q ==> !is_ws(#[trigger] text[j]),
        q == text.len() || is_ws(text[q]),
    ensures
        sp_plain_end(text, pos) == q,
    decreases q - pos,
{
    if pos < q {
        lemma_plain_exact(text, pos + 1, q);
    }
}

/// The escaped body decomposes at its first character.
pub proof fn lemma_esc_cons(s: Seq<char>)
    requires
        s.len() > 0,
    ensures
        esc(s) == esc_char(s[0]) + esc(s.drop_first()),
    decreases s.len(),
{
    if s.len() == 1 {
        assert(s.drop_last() =~= Seq::empty());
        assert(s.drop_first() =~= Seq::empty());
        assert(esc(s) =~= esc_char(s[0]) + esc(s.drop_first()));
    } else {
        lemma_esc_cons(s.drop_last());
        assert(s.drop_last().drop_first() =~= s.drop_first().drop_last());
        assert(s.drop_last()[0] == s[0]);
        assert(s.drop_first().last() == s.last());
        assert(esc(s.drop_first()) == esc(s.drop_first().drop_last()) + esc_char(s.last()));
        assert(esc(s) =~= esc_char(s[0]) + esc(s.drop_first()));
    }
}

/// Reading a quoted body over the escaped text of `s` (followed by the
/// closing quote) decodes exactly `s`.
pub proof fn lemma_quoted(text: Seq<char>, pos: int, errp: int, s: Seq<char>, acc: Seq<char>)
    requires
        0 <= pos,
        !s.contains('\\'),
        pos + esc(s).len() < text.len(),
        text.subrange(pos, pos + esc(s).len() as int) == esc(s),
        text[pos + esc(s).len()] == '"',
    ensures
        sp_quoted(text, pos, errp, acc) == Parsed::<Seq<char>>::Found(
            acc + s,
            pos + esc(s).len() + 1,
        ),
    decreases s.len(),
{
    lemma_seq_at(text, pos, esc(s));
    if s.len() == 0 {
        assert(esc(s).len() == 0);
        assert(text[pos] == '"');
        assert(acc + s =~= acc);
    } else {
        lemma_esc_cons(s);
        let c = s[0];
        let rest = s.drop_first();
        assert(!rest.contains('\\')) by {
            if rest.contains('\\') {
                let j = choose|j: int| 0 <= j < rest.len() && rest[j] == '\\';
                assert(s[j + 1] == '\\');
                assert(s.contains('\\'));
            }
        }
        assert(c != '\\') by {
            if c == '\\' {
                assert(s.contains('\\'));
            }
        }
        let el = esc_char(c).len();
        assert forall|x: int| 0 <= x < el implies text[pos + x] == #[trigger] esc_char(c)[x] by {
            assert(text[pos + x] == esc(s)[x]);
            assert(esc(s)[x] == (esc_char(c) + esc(rest))[x]);
        }
        assert forall|x: int|
            0 <= x < esc(rest).len() implies text[pos + el + x] == #[trigger] esc(rest)[x] by {
            assert(text[pos + el + x] == esc(s)[el + x]);
            assert(esc(s)[el + x] == (esc_char(c) + esc(rest))[el + x]);
        }
        assert(text.subrange(pos + el, pos + esc(s).len() as int) =~= esc(rest));
        if c == '"' {
            assert(text[pos] == '\\' && text[pos + 1] == '"');
            lemma_quoted(text, pos + 2, errp, rest, acc.push('"'));
            assert(acc.push('"') + rest =~= acc + s);
        } else if c == '\n' {
            assert(text[pos] == '\\' && text[pos + 1] == 'n');
            lemma_quoted(text, pos + 2, errp, rest, acc.push('\n'));
            assert(acc.push('\n') + rest =~= acc + s);
        } else {
            assert(text[pos] == esc_char(c)[0]);
            assert(text[pos] == c);
            assert(c != '"' && c != '\\');
            lemma_quoted(text, pos + 1, errp, rest, acc.push(c));
            assert(acc.push(c) + rest =~= acc + s);
        }
    }
}

/// Reading one token over the formatted text of a well-formed string
/// gives back exactly that string. A bare token must be delimited by
/// whitespace or the end of input.
pub proof fn lemma_token(text: Seq<char>, pos: int, s: Seq<char>)
    requires
        0 <= pos,
        wf_string(s),
        starts_with(text, pos, fmt_token(s)),
        !needs_quotes(s) ==> (pos + s.len() == text.len() || is_ws(text[pos + s.len()])),
    ensures
        sp_string(text, pos) == Parsed::<Seq<char>>::Found(s, pos + fmt_token(s).len()),
{
    lemma_seq_at(text, pos, fmt_token(s));
    if needs_quotes(s) {
        assert(fmt_token(s) == seq!['"'] + esc(s) + seq!['"']);
        assert(fmt_token(s)[0] == '"');
        assert(text[pos] == '"');
        assert(pos < text.len());
        assert(forall|x: int|
            0 <= x < esc(s).len() ==> fmt_token(s)[1 + x] == #[trigger] esc(s)[x]);
        assert(text.subrange(pos + 1, pos + 1 + esc(s).len() as int) =~= esc(s));
        assert(fmt_token(s)[1 + esc(s).len() as int] == '"');
        assert(text[pos + 1 + esc(s).len()] == '"');
        lemma_quoted(text, pos + 1, pos + 1, s, Seq::empty());
        assert(Seq::<char>::empty() + s =~= s);
    } else {
        assert(fmt_token(s) == s);
        assert(text.subrange(pos, pos + s.len() as int) == s);
        assert forall|j: int| pos <= j < pos + s.len() implies !is_ws(#[trigger] text[j]) by {
            assert(text[j] == s[j - pos]);
        }
        assert(text[pos] == s[0]);
        assert(s[0] != '"') by {
            if s[0] == '"' {
                assert(s.contains('"'));
            }
        }
        assert(pos < text.len());
        lemma_plain_exact(text, pos, pos + s.len() as int);
        assert(text.subrange(pos, sp_plain_end(text, pos)) == s);
    }
}

/// Reading one property over the formatted text of a well-formed pair
/// gives back exactly that pair.
pub proof fn lemma_attr(text: Seq<char>, pos: int, k: Seq<char>, v: Seq<char>)
    requires
        0 <= pos,
        wf_string(k),
        wf_string(v),
        starts_with(text, pos, fmt_prop(k, v)),
        !needs_quotes(v) ==> (pos + fmt_prop(k, v).len() == text.len() || is_ws(
            text[pos + fmt_prop(k, v).len()],
        )),
    ensures
        sp_attr(text, pos) == Parsed::<(Seq<char>, Seq<char>)>::Found(
            (k, v),
            pos + fmt_prop(k, v).len(),
        ),
{
    let tk = fmt_token(k);
    let tv = fmt_token(v);
    let fp = fmt_prop(k, v);
    lemma_seq_at(text, pos, fp);
    assert(forall|x: int| 0 <= x < tk.len() ==> fp[x] == #[trigger] tk[x]);
    assert(fp[tk.len() as int] == ' ');
    assert(forall|x: int| 0 <= x < tv.len() ==> fp[tk.len() + 1 + x] == #[trigger] tv[x]);
    assert(text.subrange(pos, pos + tk.len() as int) =~= tk);
    assert(text[pos + tk.len()] == ' ');
    assert(text.subrange(pos + tk.len() + 1, pos + tk.len() + 1 + tv.len() as int) =~= tv);
    lemma_token(text, pos, k);
    let ke = pos + tk.len() as int;
    assert(is_ws(text[ke]));
    let vs = ke + 1;
    assert(!is_ws(text[vs])) by {
        assert(text[vs] == tv[0]);
        if needs_quotes(v) {
            assert(tv[0] == (seq!['"'] + esc(v) + seq!['"'])[0]);
        } else {
            assert(tv[0] == v[0]);
        }
    }
    lemma_skip_ws_exact(text, ke, vs);
    lemma_token(text, vs, v);
}

// ---------------------------------------------------------------------------
// Rebuilding a multi-map by inserting its flattened pairs in order.
// ---------------------------------------------------------------------------

/// Inserts flattened pairs one by one, as the parser does.
pub open spec fn mm_add_flat<V>(m: Seq<(Seq<char>, Seq<V>)>, ps: Seq<(Seq<char>, V)>) -> Seq<
    (Seq<char>, Seq<V>),
>
    decreases ps.len(),
{
    if ps.len() == 0 {
        m
    } else {
        mm_add_flat(mm_add(m, ps[0].0, ps[0].1), ps.drop_first())
    }
}

/// Insertion distributes over concatenation of the pair list.
pub proof fn mm_add_flat_append<V>(
    m: Seq<(Seq<char>, Seq<V>)>,
    a: Seq<(Seq<char>, V)>,
    b: Seq<(Seq<char>, V)>,
)
    ensures
        mm_add_flat(m, a + b) == mm_add_flat(mm_add_flat(m, a), b),
    decreases a.len(),
{
    if a.len() == 0 {
        assert(a + b =~= b);
    } else {
        assert((a + b)[0] == a[0]);
        assert((a + b).drop_first() =~= a.drop_first() + b);
        mm_add_flat_append(mm_add(m, a[0].0, a[0].1), a.drop_first(), b);
    }
}

/// Inserting all pairs of one group appends that entry whole, when its key
/// is absent.
pub proof fn mm_add_group<V>(m: Seq<(Seq<char>, Seq<V>)>, k: Seq<char>, vs: Seq<V>)
    requires
        forall|i: int| 0 <= i < m.len() ==> (#[trigger] m[i].0) != k,
        vs.len() > 0,
    ensures
        mm_add_flat(m, group_flat((k, vs))) == m.push((k, vs)),
    decreases vs.len(),
{
    mm_index_of_props(m, k);
    assert(mm_index_of(m, k) == m.len());
    if vs.len() == 1 {
        let gf = group_flat((k, vs));
        assert(gf[0] == (k, vs[0]));
        assert(gf.drop_first() =~= Seq::empty());
        assert(mm_add_flat(mm_add(m, k, vs[0]), Seq::<(Seq<char>, V)>::empty()) == mm_add(
            m,
            k,
            vs[0],
        ));
        assert(mm_add_flat(m, gf) == mm_add(m, k, vs[0]));
        assert(mm_add(m, k, vs[0]) =~= m.push((k, seq![vs[0]])));
        assert(seq![vs[0]] =~= vs);
        assert(m.push((k, seq![vs[0]])) =~= m.push((k, vs)));
    } else {
        // insert all but the last value, then the last one appends to the
        // entry created for the key
        let front = vs.drop_last();
        mm_add_group(m, k, front);
        let m1 = m.push((k, front));
        assert(group_flat((k, vs)).drop_last() =~= group_flat((k, front)));
        assert(group_flat((k, vs)) =~= group_flat((k, front)) + seq![(k, vs.last())]);
        mm_add_flat_append(m, group_flat((k, front)), seq![(k, vs.last())]);
        assert(mm_add_flat(m, group_flat((k, vs))) == mm_add_flat(m1, seq![(k, vs.last())]));
        assert(seq![(k, vs.last())][0] == (k, vs.last()));
        assert(seq![(k, vs.last())].drop_first() =~= Seq::<(Seq<char>, V)>::empty());
        assert(mm_add_flat(mm_add(m1, k, vs.last()), Seq::<(Seq<char>, V)>::empty()) == mm_add(
            m1,
            k,
            vs.last(),
        ));
        assert(mm_add_flat(m1, seq![(k, vs.last())]) == mm_add(m1, k, vs.last()));
        mm_index_of_props(m1, k);
        assert(m1[m1.len() - 1].0 == k);
        assert(mm_index_of(m1, k) == m1.len() - 1) by {
            if mm_index_of(m1, k) < m1.len() - 1 {
                assert(m1[mm_index_of(m1, k)] == m[mm_index_of(m1, k)]);
            }
        }
        assert(mm_add(m1, k, vs.last()) =~= m.push((k, front.push(vs.last()))));
        assert(front.push(vs.last()) =~= vs);
        assert(mm_add_flat(m, group_flat((k, vs))) == mm_add(m1, k, vs.last()));
        assert(mm_add(m1, k, vs.last()) =~= m.push((k, vs)));
    }
}

/// Inserting the flattened pairs of a well-formed multi-map after `m0`
/// rebuilds it entry by entry.
pub proof fn mm_readd<V>(m0: Seq<(Seq<char>, Seq<V>)>, m: Seq<(Seq<char>, Seq<V>)>)
    requires
        mm_wf(m),
        forall|i: int, j: int|
            0 <= i < m0.len() && 0 <= j < m.len() ==> (#[trigger] m0[i].0) != (#[trigger] m[j].0),
    ensures
        mm_add_flat(m0, mm_flat(m)) == m0 + m,
    decreases m.len(),
{
    if m.len() == 0 {
        assert(mm_add_flat(m0, mm_flat(m)) =~= m0 + m);
    } else {
        let e = m[0];
        assert(mm_flat(m) == group_flat(e) + mm_flat(m.drop_first()));
        mm_add_flat_append(m0, group_flat(e), mm_flat(m.drop_first()));
        mm_add_group(m0, e.0, e.1);
        let m1 = m0.push(e);
        assert(mm_wf(m.drop_first())) by {
            assert(forall|i: int|
                0 <= i < m.drop_first().len() ==> #[trigger] m.drop_first()[i] == m[i + 1]);
        }
        assert(forall|i: int, j: int|
            0 <= i < m1.len() && 0 <= j < m.drop_first().len() ==> (#[trigger] m1[i].0) != (
            #[trigger] m.drop_first()[j].0)) by {
            assert(forall|j: int|
                0 <= j < m.drop_first().len() ==> #[trigger] m.drop_first()[j] == m[j + 1]);
        }
        mm_readd(m1, m.drop_first());
        assert(m1 + m.drop_first() =~= m0 + m);
    }
}

/// Adds flattened properties one by one.
pub open spec fn nv_add_props(acc: NodeView, ps: Seq<(Seq<char>, Seq<char>)>) -> NodeView
    decreases ps.len(),
{
    if ps.len() == 0 {
        acc
    } else {
        nv_add_props(nv_add_prop(acc, ps[0].0, ps[0].1), ps.drop_first())
    }
}

/// Adds flattened children one by one.
pub open spec fn nv_add_kids(acc: NodeView, ks: Seq<(Seq<char>, NodeView)>) -> NodeView
    decreases ks.len(),
{
    if ks.len() == 0 {
        acc
    } else {
        nv_add_kids(nv_add_kid(acc, ks[0].0, ks[0].1), ks.drop_first())
    }
}

/// Property insertion only touches the property map.
pub proof fn nv_add_props_as_flat(acc: NodeView, ps: Seq<(Seq<char>, Seq<char>)>)
    ensures
        nv_add_props(acc, ps) == (NodeView { props: mm_add_flat(acc.props, ps), kids: acc.kids }),
    decreases ps.len(),
{
    if ps.len() > 0 {
        nv_add_props_as_flat(nv_add_prop(acc, ps[0].0, ps[0].1), ps.drop_first());
    } else {
        assert(nv_add_props(acc, ps) =~= NodeView {
            props: mm_add_flat(acc.props, ps),
            kids: acc.kids,
        });
    }
}

/// Child insertion only touches the child map.
pub proof fn nv_add_kids_as_flat(acc: NodeView, ks: Seq<(Seq<char>, NodeView)>)
    ensures
        nv_add_kids(acc, ks) == (NodeView { props: acc.props, kids: mm_add_flat(acc.kids, ks) }),
    decreases ks.len(),
{
    if ks.len() > 0 {
        nv_add_kids_as_flat(nv_add_kid(acc, ks[0].0, ks[0].1), ks.drop_first());
    } else {
        assert(nv_add_kids(acc, ks) =~= NodeView {
            props: acc.props,
            kids: mm_add_flat(acc.kids, ks),
        });
    }
}

/// Inserting the flattened properties and children of a well-formed node
/// into the empty node rebuilds it.
pub proof fn lemma_rebuild(nv: NodeView)
    requires
        mm_wf(nv.props),
        mm_wf(nv.kids),
    ensures
        nv_add_kids(nv_add_props(empty_nv(), mm_flat(nv.props)), mm_flat(nv.kids)) == nv,
{
    nv_add_props_as_flat(empty_nv(), mm_flat(nv.props));
    mm_readd(Seq::empty(), nv.props);
    assert(Seq::<(Seq<char>, Seq<Seq<char>>)>::empty() + nv.props =~= nv.props);
    let mid = nv_add_props(empty_nv(), mm_flat(nv.props));
    nv_add_kids_as_flat(mid, mm_flat(nv.kids));
    mm_readd(Seq::empty(), nv.kids);
    assert(Seq::<(Seq<char>, Seq<NodeView>)>::empty() + nv.kids =~= nv.kids);
    assert(nv_add_kids(mid, mm_flat(nv.kids)) =~= nv);
}

/// Every flattened pair comes from an entry of the multi-map.
pub proof fn mm_flat_elements<V>(m: Seq<(Seq<char>, Seq<V>)>, x: int)
    requires
        0 <= x < mm_flat(m).len(),
    ensures
        exists|i: int, j: int|
            0 <= i < m.len() && 0 <= j < m[i].1.len() && mm_flat(m)[x] == (
            m[i].0,
            #[trigger] m[i].1[j],
            ),
    decreases m.len(),
{
    let g = group_flat(m[0]);
    if x < g.len() {
        assert(mm_flat(m)[x] == g[x]);
        assert(mm_flat(m)[x] == (m[0].0, m[0].1[x]));
    } else {
        mm_flat_elements(m.drop_first(), x - g.len());
        let (i, j): (int, int) = choose|i: int, j: int|
            0 <= i < m.drop_first().len() && 0 <= j < m.drop_first()[i].1.len() && mm_flat(
                m.drop_first(),
            )[x - g.len()] == (m.drop_first()[i].0, #[trigger] m.drop_first()[i].1[j]);
        assert(m.drop_first()[i] == m[i + 1]);
        assert(mm_flat(m)[x] == mm_flat(m.drop_first())[x - g.len()]);
        assert(mm_flat(m)[x] == (m[i + 1].0, m[i + 1].1[j]));
    }
}

// ---------------------------------------------------------------------------
// Locating the item texts of a node body inside the whole text.
// ---------------------------------------------------------------------------

/// The texts of flattened key-child pairs.
pub open spec fn kid_texts_flat(ks: Seq<(Seq<char>, NodeView)>, d: nat) -> Seq<Seq<char>> {
    ks.map(|i: int, p: (Seq<char>, NodeView)| fmt_kid_entry(p.0, p.1, d))
}

/// `kids_texts` is `kid_texts_flat` of the flattened child map.
pub proof fn kids_texts_as_flat(kids: Seq<(Seq<char>, Seq<NodeView>)>, d: nat)
    ensures
        kids_texts(kids, d) == kid_texts_flat(mm_flat(kids), d),
{
    kids_texts_index(kids, d);
    assert forall|x: int| 0 <= x < mm_flat(kids).len() implies kids_texts(kids, d)[x]
        == kid_texts_flat(mm_flat(kids), d)[x] by {
        assert(kids_texts(kids, d)[x] == fmt_kid_entry(mm_flat(kids)[x].0, mm_flat(kids)[x].1, d));
    }
    assert(kids_texts(kids, d) =~= kid_texts_flat(mm_flat(kids), d));
}

/// The remaining item texts of a node body stand in `text` from `pos` on:
/// each begins where whitespace-skipping from the end of the one before
/// it stops, each is followed by whitespace or the end of input, and
/// after the last one, skipping whitespace lands at `fin`, which holds
/// the terminator: `END` inside a child, the end of input at the root.
pub open spec fn items_at(
    text: Seq<char>,
    pos: int,
    items: Seq<Seq<char>>,
    child: bool,
    fin: int,
) -> bool
    decreases items.len(),
{
    if items.len() == 0 {
        &&& sp_skip_ws(text, pos) == fin
        &&& if child {
            end_at(text, fin)
        } else {
            fin == text.len()
        }
    } else {
        let q = sp_skip_ws(text, pos);
        &&& q + items[0].len() <= text.len()
        &&& text.subrange(q, q + items[0].len() as int) == items[0]
        &&& (q + items[0].len() == text.len() || is_ws(text[q + items[0].len()]))
        &&& items_at(text, q + items[0].len() as int, items.drop_first(), child, fin)
    }
}

/// A joined list decomposes at its first item.
pub proof fn lemma_join_cons(items: Seq<Seq<char>>, sep: Seq<char>)
    requires
        items.len() >= 1,
    ensures
        items.len() == 1 ==> join(items, sep) == items[0],
        items.len() > 1 ==> join(items, sep) == items[0] + sep + join(items.drop_first(), sep),
    decreases items.len(),
{
    if items.len() == 2 {
        assert(items.drop_last() =~= seq![items[0]]);
        assert(items.drop_first() =~= seq![items[1]]);
        assert(join(items.drop_last(), sep) == items[0]);
        assert(join(items.drop_first(), sep) == items[1]);
    } else if items.len() > 2 {
        lemma_join_cons(items.drop_last(), sep);
        assert(items.drop_last()[0] == items[0]);
        assert(items.drop_last().drop_first() =~= items.drop_first().drop_last());
        assert(join(items, sep) == join(items.drop_last(), sep) + sep + items.last());
        assert(join(items.drop_last(), sep) == items[0] + sep + join(
            items.drop_first().drop_last(),
            sep,
        ));
        assert(items.drop_first().len() >= 2);
        assert(join(items.drop_first(), sep) == join(items.drop_first().drop_last(), sep) + sep
            + items.drop_first().last());
        assert(items.drop_first().last() == items.last());
        assert(join(items, sep) =~= items[0] + sep + join(items.drop_first(), sep));
    }
}

/// The inline body is the property texts joined by single spaces, with
/// one more space after the last.
pub proof fn lemma_inline_as_join(ps: Seq<(Seq<char>, Seq<char>)>)
    ensures
        ps.len() == 0 ==> inline_props(ps) == Seq::<char>::empty(),
        ps.len() > 0 ==> inline_props(ps) == join(prop_texts(ps), seq![' ']) + seq![' '],
    decreases ps.len(),
{
    if ps.len() == 1 {
        assert(ps.drop_last() =~= Seq::empty());
        assert(inline_props(Seq::<(Seq<char>, Seq<char>)>::empty()) == Seq::<char>::empty());
        assert(prop_texts(ps)[0] == fmt_prop(ps[0].0, ps[0].1));
        assert(join(prop_texts(ps), seq![' ']) == prop_texts(ps)[0]);
        assert(ps.last() == ps[0]);
        assert(inline_props(ps) =~= join(prop_texts(ps), seq![' ']) + seq![' ']);
    } else if ps.len() > 1 {
        lemma_inline_as_join(ps.drop_last());
        assert(prop_texts(ps).drop_last() =~= prop_texts(ps.drop_last()));
        assert(prop_texts(ps).last() == fmt_prop(ps.last().0, ps.last().1));
        assert(join(prop_texts(ps), seq![' ']) == join(prop_texts(ps.drop_last()), seq![' '])
            + seq![' '] + fmt_prop(ps.last().0, ps.last().1));
        assert(inline_props(ps) =~= join(prop_texts(ps), seq![' ']) + seq![' ']);
    }
}

/// Indentation is whitespace throughout, four characters per level.
pub proof fn lemma_indent_ws(d: nat)
    ensures
        indent(d).len() == 4 * d,
        forall|x: int| 0 <= x < indent(d).len() ==> is_ws(#[trigger] indent(d)[x]),
    decreases d,
{
    if d > 0 {
        lemma_indent_ws((d - 1) as nat);
        assert forall|x: int| 0 <= x < indent(d).len() implies is_ws(#[trigger] indent(d)[x]) by {
            if x < indent((d - 1) as nat).len() {
                assert(indent(d)[x] == indent((d - 1) as nat)[x]);
            } else {
                assert(indent(d)[x] == seq![' ', ' ', ' ', ' '][x - indent((d - 1) as nat).len()]);
            }
        }
    }
}

/// Every item text of a node body is non-empty and starts with a
/// non-whitespace character.
pub proof fn lemma_items_shape(
    props_rest: Seq<(Seq<char>, Seq<char>)>,
    kids_rest: Seq<(Seq<char>, NodeView)>,
    d: nat,
    child: bool,
)
    requires
        forall|i: int|
            0 <= i < props_rest.len() ==> wf_key((#[trigger] props_rest[i]).0, child) && wf_string(
                props_rest[i].1,
            ),
    ensures
        ({
            let items = prop_texts(props_rest) + kid_texts_flat(kids_rest, d);
            forall|i: int|
                0 <= i < items.len() ==> (#[trigger] items[i]).len() > 0 && !is_ws(items[i][0])
        }),
{
    let items = prop_texts(props_rest) + kid_texts_flat(kids_rest, d);
    assert forall|i: int|
        0 <= i < items.len() implies (#[trigger] items[i]).len() > 0 && !is_ws(items[i][0]) by {
        if i < props_rest.len() {
            let k = props_rest[i].0;
            let t = fmt_token(k);
            assert(items[i] == fmt_prop(k, props_rest[i].1));
            assert(items[i][0] == t[0]);
            if needs_quotes(k) {
                assert(t[0] == (seq!['"'] + esc(k) + seq!['"'])[0]);
                assert(t[0] == '"');
            } else {
                assert(t[0] == k[0]);
                assert(!is_ws(k[0]));
            }
        } else {
            let e = kids_rest[i - props_rest.len()];
            assert(items[i] == fmt_kid_entry(e.0, e.1, d));
            assert(items[i][0] == 'B');
        }
    }
}

/// From a joined body placed after the whitespace-skip of `pos`, each
/// item stands at its own skipped position.
pub proof fn lemma_decompose(
    text: Seq<char>,
    pos: int,
    items: Seq<Seq<char>>,
    sep: Seq<char>,
    child: bool,
    fin: int,
)
    requires
        0 <= pos <= text.len(),
        sep.len() > 0,
        forall|x: int| 0 <= x < sep.len() ==> is_ws(#[trigger] sep[x]),
        forall|i: int|
            0 <= i < items.len() ==> (#[trigger] items[i]).len() > 0 && !is_ws(items[i][0]),
        ({
            let q = sp_skip_ws(text, pos);
            let ln = join(items, sep).len() as int;
            &&& q + ln <= text.len()
            &&& text.subrange(q, q + ln) == join(items, sep)
            &&& (q + ln == text.len() || is_ws(text[q + ln]))
            &&& items_at(text, q + ln, Seq::empty(), child, fin)
        }),
    ensures
        items_at(text, pos, items, child, fin),
    decreases items.len(),
{
    sp_skip_ws_props(text, pos);
    let q = sp_skip_ws(text, pos);
    if items.len() == 0 {
        assert(sp_skip_ws(text, q) == fin);
        sp_skip_ws_props(text, q);
        lemma_skip_ws_exact(text, q, q);
        assert(sp_skip_ws(text, q) == q);
    } else {
        lemma_join_cons(items, sep);
        let jn = join(items, sep);
        lemma_seq_at(text, q, jn);
        let l0 = items[0].len() as int;
        assert forall|x: int| 0 <= x < l0 implies text[q + x] == #[trigger] items[0][x] by {
            assert(text[q + x] == jn[x]);
            if items.len() > 1 {
                assert(jn[x] == (items[0] + sep + join(items.drop_first(), sep))[x]);
            }
        }
        assert(text.subrange(q, q + l0) =~= items[0]);
        if items.len() == 1 {
            assert(items.drop_first() =~= Seq::<Seq<char>>::empty());
            assert(q + l0 == q + jn.len());
            // the tail is exactly the terminator condition
            assert(items_at(text, q + l0, Seq::empty(), child, fin));
        } else {
            // a separator, then the rest of the join
            let rest = items.drop_first();
            let jr = join(rest, sep);
            assert(jn =~= items[0] + sep + jr);
            let q2 = q + l0 + sep.len() as int;
            assert forall|j: int| q + l0 <= j < q2 implies is_ws(#[trigger] text[j]) by {
                assert(text[j] == jn[j - q]);
                assert(jn[j - q] == sep[j - q - l0]);
            }
            assert(is_ws(text[q + l0]));
            lemma_join_cons(rest, sep);
            assert(jr.len() > 0);
            assert(!is_ws(text[q2])) by {
                assert(text[q2] == jn[l0 + sep.len() as int]);
                assert(jn[l0 + sep.len() as int] == jr[0]);
                if rest.len() == 1 {
                    assert(jr[0] == rest[0][0]);
                } else {
                    assert(jr[0] == (rest[0] + sep + join(rest.drop_first(), sep))[0]);
                    assert(jr[0] == rest[0][0]);
                }
            }
            lemma_skip_ws_exact(text, q + l0, q2);
            assert forall|x: int| 0 <= x < jr.len() implies text[q2 + x] == #[trigger] jr[x] by {
                assert(text[q2 + x] == jn[l0 + sep.len() + x]);
                assert(jn[l0 + sep.len() + x] == jr[x]);
            }
            assert(text.subrange(q2, q2 + jr.len() as int) =~= jr);
            lemma_skip_ws_exact(text, q2, q2);
            assert(q2 + jr.len() == q + jn.len());
            lemma_decompose(text, q + l0, rest, sep, child, fin);
        }
    }
}

/// A property line is never mistaken for a block boundary: at its
/// position neither `BEGIN` nor, inside a child, `END` can occur.
pub proof fn lemma_prop_not_boundary(text: Seq<char>, q: int, k: Seq<char>, v: Seq<char>, child: bool)
    requires
        0 <= q,
        q + fmt_prop(k, v).len() <= text.len(),
        text.subrange(q, q + fmt_prop(k, v).len() as int) == fmt_prop(k, v),
        wf_key(k, child),
        wf_string(v),
    ensures
        !begin_at(text, q),
        child ==> !end_at(text, q),
{
    let fp = fmt_prop(k, v);
    let tk = fmt_token(k);
    lemma_seq_at(text, q, fp);
    assert(forall|x: int| 0 <= x < tk.len() ==> fp[x] == #[trigger] tk[x]);
    assert(fp[tk.len() as int] == ' ');
    let bpat = seq!['B', 'E', 'G', 'I', 'N'];
    let epat = seq!['E', 'N', 'D'];
    if begin_at(text, q) {
        lemma_seq_at(text, q, bpat);
        if needs_quotes(k) {
            assert(text[q] == tk[0]);
            assert(tk[0] == (seq!['"'] + esc(k) + seq!['"'])[0]);
            assert(text[q] == bpat[0]);
            assert(false);
        } else {
            if k.len() >= 5 {
                assert forall|x: int| 0 <= x < 5 implies k[x] == #[trigger] bpat[x] by {
                    assert(text[q + x] == fp[x]);
                    assert(fp[x] == k[x]);
                    assert(text[q + x] == bpat[x]);
                }
                assert(k.subrange(0, 5) =~= bpat);
                assert(has_prefix(k, bpat));
                assert(false);
            } else {
                let i = k.len() as int;
                assert(text[q + i] == fp[i]);
                assert(fp[i] == ' ');
                assert(text[q + i] == bpat[i]);
                assert(bpat[1] == 'E' && bpat[2] == 'G' && bpat[3] == 'I' && bpat[4] == 'N');
                assert(false);
            }
        }
    }
    if child && end_at(text, q) {
        lemma_seq_at(text, q, epat);
        if needs_quotes(k) {
            assert(text[q] == tk[0]);
            assert(tk[0] == (seq!['"'] + esc(k) + seq!['"'])[0]);
            assert(text[q] == epat[0]);
            assert(false);
        } else {
            if k.len() >= 3 {
                assert forall|x: int| 0 <= x < 3 implies k[x] == #[trigger] epat[x] by {
                    assert(text[q + x] == fp[x]);
                    assert(fp[x] == k[x]);
                    assert(text[q + x] == epat[x]);
                }
                assert(k.subrange(0, 3) =~= epat);
                assert(has_prefix(k, epat));
                assert(false);
            } else {
                let i = k.len() as int;
                assert(text[q + i] == fp[i]);
                assert(fp[i] == ' ');
                assert(text[q + i] == epat[i]);
                assert(epat[1] == 'N' && epat[2] == 'D');
                assert(false);
            }
        }
    }
}

/// Well-formedness carries from a node to its flattened pair lists, and
/// every flattened child is strictly lower than the node.
pub proof fn lemma_flat_wf(nv: NodeView, nested: bool)
    requires
        wf_node(nv, nested),
    ensures
        forall|i: int|
            0 <= i < mm_flat(nv.props).len() ==> wf_key(
                (#[trigger] mm_flat(nv.props)[i]).0,
                nested,
            ) && wf_string(mm_flat(nv.props)[i].1),
        forall|i: int|
            0 <= i < mm_flat(nv.kids).len() ==> wf_string((#[trigger] mm_flat(nv.kids)[i]).0)
                && wf_node(mm_flat(nv.kids)[i].1, true) && nv_height(mm_flat(nv.kids)[i].1) + 1
                <= nv_height(nv),
{
    assert forall|i: int|
        0 <= i < mm_flat(nv.props).len() implies wf_key(
        (#[trigger] mm_flat(nv.props)[i]).0,
        nested,
    ) && wf_string(mm_flat(nv.props)[i].1) by {
        mm_flat_elements(nv.props, i);
    }
    assert forall|i: int|
        0 <= i < mm_flat(nv.kids).len() implies wf_string((#[trigger] mm_flat(nv.kids)[i]).0)
        && wf_node(mm_flat(nv.kids)[i].1, true) && nv_height(mm_flat(nv.kids)[i].1) + 1
        <= nv_height(nv) by {
        mm_flat_elements(nv.kids, i);
        let (a, b): (int, int) = choose|a: int, b: int|
            0 <= a < nv.kids.len() && 0 <= b < nv.kids[a].1.len() && mm_flat(nv.kids)[i] == (
            nv.kids[a].0,
            #[trigger] nv.kids[a].1[b],
            );
        kids_height_bound(nv.kids, a, b);
    }
}

/// A flattened multi-map is non-empty whenever the map has an entry.
pub proof fn lemma_flat_nonempty<V>(m: Seq<(Seq<char>, Seq<V>)>)
    requires
        mm_wf(m),
        m.len() > 0,
    ensures
        mm_flat(m).len() > 0,
{
    assert(m[0].1.len() > 0);
    assert(mm_flat(m) == group_flat(m[0]) + mm_flat(m.drop_first()));
}

/// Reading one inline child entry gives back its key and its node, and
/// stops at the closing `END`.
#[verifier::rlimit(100)]
pub proof fn rt_kid_inline(text: Seq<char>, q: int, key: Seq<char>, kid: NodeView, d: nat, h: nat)
    requires
        0 <= q,
        kid.kids.len() == 0,
        q + fmt_kid_entry(key, kid, d).len() <= text.len(),
        text.subrange(q, q + fmt_kid_entry(key, kid, d).len() as int) == fmt_kid_entry(
            key,
            kid,
            d,
        ),
        wf_string(key),
        wf_node(kid, true),
        nv_height(kid) <= h,
        1 <= h,
    ensures
        begin_at(text, q),
        ({
            let tk = fmt_token(key);
            let el = fmt_kid_entry(key, kid, d).len() as int;
            &&& sp_skip_ws(text, q + 5) == q + 6
            &&& sp_string(text, q + 6) == Parsed::<Seq<char>>::Found(key, q + 6 + tk.len())
            &&& sp_node(text, q + 6 + tk.len() as int, true, empty_nv())
                == Parsed::<NodeView>::Found(kid, q + el - 3)
            &&& end_at(text, q + el - 3)
        }),
    decreases h, 0int, 0int, 1int,
{
    let entry = fmt_kid_entry(key, kid, d);
    let el = entry.len() as int;
    let tk = fmt_token(key);
    let fp2 = mm_flat(kid.props);
    let ip = inline_props(fp2);
    let il = ip.len() as int;
    let bsp = seq!['B', 'E', 'G', 'I', 'N', ' '];
    let endg = seq![' ', 'E', 'N', 'D'];
    lemma_seq_at(text, q, entry);
    lemma_inline_as_join(fp2);
    lemma_flat_wf(kid, true);
    assert(entry == bsp + tk + seq![' '] + ip + endg);
    assert(el == 7 + tk.len() + il + 4);
    assert(forall|x: int| 0 <= x < 6 ==> entry[x] == #[trigger] bsp[x]);
    assert(forall|x: int| 0 <= x < tk.len() ==> entry[6 + x] == #[trigger] tk[x]);
    assert(entry[6 + tk.len() as int] == ' ');
    assert(forall|x: int| 0 <= x < il ==> entry[7 + tk.len() + x] == #[trigger] ip[x]);
    assert(forall|x: int| 0 <= x < 4 ==> entry[7 + tk.len() + il + x] == #[trigger] endg[x]);
    // BEGIN stands at q
    assert(text.subrange(q, q + 5) =~= seq!['B', 'E', 'G', 'I', 'N']);
    // one space, then the key token
    let kp = q + 6 + tk.len() as int;
    assert(!is_ws(tk[0])) by {
        if needs_quotes(key) {
            assert(tk[0] == (seq!['"'] + esc(key) + seq!['"'])[0]);
        } else {
            assert(tk[0] == key[0]);
        }
    }
    assert(text[q + 6] == tk[0]);
    lemma_skip_ws_exact(text, q + 5, q + 6);
    assert(text.subrange(q + 6, kp) =~= tk);
    assert(text[kp] == ' ');
    lemma_token(text, q + 6, key);
    // END stands three characters before the end of the entry
    let fin_i = q + el - 3;
    assert(fin_i == kp + 2 + il);
    assert(text[fin_i] == 'E' && text[fin_i + 1] == 'N' && text[fin_i + 2] == 'D');
    assert(text.subrange(fin_i, fin_i + 3) =~= seq!['E', 'N', 'D']);
    assert(end_at(text, fin_i));
    // the child's own body: its properties, inline
    if fp2.len() == 0 {
        assert(il == 0);
        assert(text[kp + 1] == ' ');
        lemma_skip_ws_exact(text, kp, fin_i);
        assert(items_at(text, kp, prop_texts(fp2) + kid_texts_flat(Seq::empty(), d), true, fin_i))
            by {
            assert(prop_texts(fp2) + kid_texts_flat(Seq::empty(), d) =~= Seq::<Seq<char>>::empty());
        }
        rt_items(text, kp, true, empty_nv(), fp2, Seq::empty(), d, (h - 1) as nat, fin_i);
    } else {
        let items2 = prop_texts(fp2);
        let jn = join(items2, seq![' ']);
        let jl = jn.len() as int;
        assert(ip == jn + seq![' ']);
        assert(il == jl + 1);
        lemma_items_shape(fp2, Seq::empty(), d, true);
        assert(items2 + kid_texts_flat(Seq::empty(), d) =~= items2);
        // whitespace from the key's end to the first property
        assert(items2[0].len() > 0 && !is_ws(items2[0][0]));
        lemma_join_cons(items2, seq![' ']);
        assert(jn[0] == items2[0][0]) by {
            if items2.len() > 1 {
                assert(jn[0] == (items2[0] + seq![' '] + join(items2.drop_first(), seq![' ']))[0]);
            }
        }
        assert(text[kp + 1] == ip[0]);
        assert(ip[0] == jn[0]);
        lemma_skip_ws_exact(text, kp, kp + 1);
        assert forall|x: int| 0 <= x < jl implies text[kp + 1 + x] == #[trigger] jn[x] by {
            assert(text[kp + 1 + x] == ip[x]);
            assert(ip[x] == (jn + seq![' '])[x]);
        }
        assert(text.subrange(kp + 1, kp + 1 + jl) =~= jn);
        // after the joined properties: two spaces, then END
        assert(text[kp + 1 + jl] == ip[jl]);
        assert(ip[jl] == ' ');
        assert(text[kp + 2 + jl] == ' ');
        lemma_skip_ws_exact(text, kp + 1 + jl, fin_i);
        assert(items_at(text, kp + 1 + jl, Seq::<Seq<char>>::empty(), true, fin_i));
        lemma_decompose(text, kp, items2, seq![' '], true, fin_i);
        assert(items_at(text, kp, items2 + kid_texts_flat(Seq::empty(), d), true, fin_i)) by {
            assert(items2 + kid_texts_flat(Seq::empty(), d) =~= items2);
        }
        rt_items(text, kp, true, empty_nv(), fp2, Seq::empty(), d, (h - 1) as nat, fin_i);
    }
    lemma_rebuild(kid);
    assert(mm_flat(kid.kids) =~= Seq::<(Seq<char>, NodeView)>::empty());
    assert(nv_add_kids(nv_add_props(empty_nv(), fp2), Seq::empty()) == nv_add_kids(
        nv_add_props(empty_nv(), fp2),
        mm_flat(kid.kids),
    ));
}

/// Reading one block child entry gives back its key and its node, and
/// stops at the closing `END`.
#[verifier::rlimit(100)]
pub proof fn rt_kid_block(text: Seq<char>, q: int, key: Seq<char>, kid: NodeView, d: nat, h: nat)
    requires
        0 <= q,
        kid.kids.len() > 0,
        q + fmt_kid_entry(key, kid, d).len() <= text.len(),
        text.subrange(q, q + fmt_kid_entry(key, kid, d).len() as int) == fmt_kid_entry(
            key,
            kid,
            d,
        ),
        wf_string(key),
        wf_node(kid, true),
        nv_height(kid) <= h,
        1 <= h,
    ensures
        begin_at(text, q),
        ({
            let tk = fmt_token(key);
            let el = fmt_kid_entry(key, kid, d).len() as int;
            &&& sp_skip_ws(text, q + 5) == q + 6
            &&& sp_string(text, q + 6) == Parsed::<Seq<char>>::Found(key, q + 6 + tk.len())
            &&& sp_node(text, q + 6 + tk.len() as int, true, empty_nv())
                == Parsed::<NodeView>::Found(kid, q + el - 3)
            &&& end_at(text, q + el - 3)
        }),
    decreases h, 0int, 0int, 1int,
{
    let entry = fmt_kid_entry(key, kid, d);
    let el = entry.len() as int;
    let tk = fmt_token(key);
    let fp2 = mm_flat(kid.props);
    let fk2 = mm_flat(kid.kids);
    let nl1 = nl_indent(d + 1);
    let nl0 = nl_indent(d);
    let body = fmt_node(kid, (d + 1) as nat);
    let fl = body.len() as int;
    let bsp = seq!['B', 'E', 'G', 'I', 'N', ' '];
    let endg = seq!['E', 'N', 'D'];
    lemma_seq_at(text, q, entry);
    lemma_indent_ws((d + 1) as nat);
    lemma_indent_ws(d);
    lemma_flat_wf(kid, true);
    kids_texts_as_flat(kid.kids, (d + 1) as nat);
    lemma_flat_nonempty(kid.kids);
    assert(entry == bsp + tk + nl1 + body + nl0 + endg);
    assert(el == 6 + tk.len() + nl1.len() + fl + nl0.len() + 3);
    assert(forall|x: int| 0 <= x < 6 ==> entry[x] == #[trigger] bsp[x]);
    assert(forall|x: int| 0 <= x < tk.len() ==> entry[6 + x] == #[trigger] tk[x]);
    assert(forall|x: int|
        0 <= x < nl1.len() ==> entry[6 + tk.len() + x] == #[trigger] nl1[x]);
    assert(forall|x: int|
        0 <= x < fl ==> entry[6 + tk.len() + nl1.len() + x] == #[trigger] body[x]);
    assert(forall|x: int|
        0 <= x < nl0.len() ==> entry[6 + tk.len() + nl1.len() + fl + x] == #[trigger] nl0[x]);
    assert(forall|x: int|
        0 <= x < 3 ==> entry[6 + tk.len() + nl1.len() + fl + nl0.len() + x] == #[trigger] endg[x]);
    // BEGIN stands at q
    assert(text.subrange(q, q + 5) =~= seq!['B', 'E', 'G', 'I', 'N']);
    // one space, then the key token
    let kp = q + 6 + tk.len() as int;
    assert(!is_ws(tk[0])) by {
        if needs_quotes(key) {
            assert(tk[0] == (seq!['"'] + esc(key) + seq!['"'])[0]);
        } else {
            assert(tk[0] == key[0]);
        }
    }
    assert(text[q + 6] == tk[0]);
    lemma_skip_ws_exact(text, q + 5, q + 6);
    assert(text.subrange(q + 6, kp) =~= tk);
    assert(text[kp] == nl1[0]);
    assert(nl1[0] == '\n');
    lemma_token(text, q + 6, key);
    // the child body: a joined item list between indentation
    let items2 = prop_texts(fp2) + kid_texts_flat(fk2, (d + 1) as nat);
    assert(body == join(items2, nl1));
    assert(items2.len() > 0);
    lemma_items_shape(fp2, fk2, (d + 1) as nat, true);
    lemma_join_cons(items2, nl1);
    let js = kp + nl1.len() as int;
    let je = js + fl;
    let fin_i = q + el - 3;
    assert(fin_i == je + nl0.len());
    // whitespace crosses the indentation to the first item
    assert(body[0] == items2[0][0]) by {
        if items2.len() > 1 {
            assert(body[0] == (items2[0] + nl1 + join(items2.drop_first(), nl1))[0]);
        }
    }
    assert forall|j: int| kp <= j < js implies is_ws(#[trigger] text[j]) by {
        assert(text[j] == nl1[j - kp]);
        if j > kp {
            assert(nl1[j - kp] == indent((d + 1) as nat)[j - kp - 1]);
        }
    }
    assert(!is_ws(text[js])) by {
        assert(text[js] == body[0]);
    }
    lemma_skip_ws_exact(text, kp, js);
    assert forall|x: int| 0 <= x < fl implies text[js + x] == #[trigger] body[x] by {
        assert(text[js + x] == entry[6 + tk.len() + nl1.len() + x]);
    }
    assert(text.subrange(js, je) =~= body);
    // after the body: indentation, then END
    assert(text[je] == nl0[0]);
    assert(nl0[0] == '\n');
    assert forall|j: int| je <= j < fin_i implies is_ws(#[trigger] text[j]) by {
        assert(text[j] == nl0[j - je]);
        if j > je {
            assert(nl0[j - je] == indent(d)[j - je - 1]);
        }
    }
    assert(text[fin_i] == 'E' && text[fin_i + 1] == 'N' && text[fin_i + 2] == 'D');
    assert(text.subrange(fin_i, fin_i + 3) =~= endg);
    assert(end_at(text, fin_i));
    lemma_skip_ws_exact(text, je, fin_i);
    assert(items_at(text, je, Seq::<Seq<char>>::empty(), true, fin_i));
    lemma_decompose(text, kp, items2, nl1, true, fin_i);
    rt_items(text, kp, true, empty_nv(), fp2, fk2, (d + 1) as nat, (h - 1) as nat, fin_i);
    lemma_rebuild(kid);
}

/// Reading a node body over the formatted texts of its remaining items
/// accumulates exactly those items, and stops at the terminator.
#[verifier::rlimit(100)]
pub proof fn rt_items(
    text: Seq<char>,
    pos: int,
    child: bool,
    acc: NodeView,
    props_rest: Seq<(Seq<char>, Seq<char>)>,
    kids_rest: Seq<(Seq<char>, NodeView)>,
    d: nat,
    h: nat,
    fin: int,
)
    requires
        0 <= pos <= text.len(),
        forall|i: int|
            0 <= i < props_rest.len() ==> wf_key((#[trigger] props_rest[i]).0, child) && wf_string(
                props_rest[i].1,
            ),
        forall|i: int|
            0 <= i < kids_rest.len() ==> wf_string((#[trigger] kids_rest[i]).0) && wf_node(
                kids_rest[i].1,
                true,
            ) && nv_height(kids_rest[i].1) <= h,
        items_at(text, pos, prop_texts(props_rest) + kid_texts_flat(kids_rest, d), child, fin),
    ensures
        sp_node(text, pos, child, acc) == Parsed::<NodeView>::Found(
            nv_add_kids(nv_add_props(acc, props_rest), kids_rest),
            fin,
        ),
    decreases h, kids_rest.len(), props_rest.len(), 0int,
{
    let items = prop_texts(props_rest) + kid_texts_flat(kids_rest, d);
    sp_skip_ws_props(text, pos);
    let p = sp_skip_ws(text, pos);
    if props_rest.len() > 0 {
        let k = props_rest[0].0;
        let v = props_rest[0].1;
        assert(items[0] == fmt_prop(k, v));
        let l0 = items[0].len() as int;
        assert(p + l0 <= text.len());
        assert(text.subrange(p, p + l0) == items[0]);
        lemma_prop_not_boundary(text, p, k, v, child);
        assert(fmt_token(k).len() >= 1) by {
            if needs_quotes(k) {
                assert(fmt_token(k).len() == 2 + esc(k).len());
            }
        }
        assert(p < text.len());
        lemma_attr(text, p, k, v);
        let np = p + l0;
        assert(next_pos(pos, np, text.len() as int) == np);
        assert(items.drop_first() =~= prop_texts(props_rest.drop_first()) + kid_texts_flat(
            kids_rest,
            d,
        )) by {
            assert(forall|x: int|
                0 <= x < props_rest.drop_first().len() ==> #[trigger] props_rest.drop_first()[x]
                    == props_rest[x + 1]);
        }
        rt_items(
            text,
            np,
            child,
            nv_add_prop(acc, k, v),
            props_rest.drop_first(),
            kids_rest,
            d,
            h,
            fin,
        );
        assert(nv_add_props(acc, props_rest) == nv_add_props(
            nv_add_prop(acc, k, v),
            props_rest.drop_first(),
        ));
    } else if kids_rest.len() > 0 {
        let key = kids_rest[0].0;
        let kid = kids_rest[0].1;
        assert(items[0] == fmt_kid_entry(key, kid, d));
        let el = items[0].len() as int;
        assert(p + el <= text.len());
        assert(text.subrange(p, p + el) == items[0]);
        assert(nv_height(kid) >= 1);
        let tk = fmt_token(key);
        if kid.kids.len() == 0 {
            rt_kid_inline(text, p, key, kid, d, h);
        } else {
            rt_kid_block(text, p, key, kid, d, h);
        }
        let kp = p + 6 + tk.len() as int;
        let fin_i = p + el - 3;
        assert(sp_node(text, kp, true, empty_nv()) == Parsed::<NodeView>::Found(kid, fin_i));
        assert(end_at(text, fin_i));
        assert(next_pos(pos, kp, text.len() as int) == kp);
        assert(next_pos(pos, fin_i + 3, text.len() as int) == fin_i + 3);
        assert(items.drop_first() =~= prop_texts(props_rest) + kid_texts_flat(
            kids_rest.drop_first(),
            d,
        )) by {
            assert(forall|x: int|
                0 <= x < kids_rest.drop_first().len() ==> #[trigger] kids_rest.drop_first()[x]
                    == kids_rest[x + 1]);
        }
        rt_items(
            text,
            fin_i + 3,
            child,
            nv_add_kid(acc, key, kid),
            props_rest,
            kids_rest.drop_first(),
            d,
            h,
            fin,
        );
        assert(nv_add_props(acc, props_rest) == acc);
        assert(nv_add_props(nv_add_kid(acc, key, kid), props_rest) == nv_add_kid(acc, key, kid));
        assert(nv_add_kids(acc, kids_rest) == nv_add_kids(
            nv_add_kid(acc, key, kid),
            kids_rest.drop_first(),
        ));
    } else {
        assert(items.len() == 0);
        assert(sp_skip_ws(text, pos) == fin);
        if child {
            assert(end_at(text, fin));
            lemma_seq_at(text, fin, seq!['E', 'N', 'D']);
            assert(text[fin] == 'E');
            assert(!begin_at(text, fin)) by {
                if begin_at(text, fin) {
                    lemma_seq_at(text, fin, seq!['B', 'E', 'G', 'I', 'N']);
                    assert(text[fin] == 'B');
                }
            }
            assert(fin < text.len());
        } else {
            assert(fin == text.len());
            assert(!begin_at(text, fin));
        }
        assert(nv_add_kids(nv_add_props(acc, props_rest), kids_rest) == acc);
    }
}

// ---------------------------------------------------------------------------
// The laws.
// ---------------------------------------------------------------------------

/// The round-trip law: parsing the formatted text of any well-formed node
/// succeeds, consumes the whole text, and gives back exactly that node.
/// `Node::parse` and `Node::to_text` promise `sp_parse` of `fmt_doc` of
/// the views they touch, so the law carries to the executable pair.
pub proof fn lemma_parse_format_roundtrip(nv: NodeView)
    requires
        wf_node(nv, false),
    ensures
        sp_parse(fmt_doc(nv)) == Parsed::<NodeView>::Found(nv, fmt_doc(nv).len() as int),
{
    let text = fmt_doc(nv);
    let len = text.len() as int;
    let fp = mm_flat(nv.props);
    let fk = mm_flat(nv.kids);
    let items = prop_texts(fp) + kid_texts_flat(fk, 0);
    let sep = nl_indent(0);
    kids_texts_as_flat(nv.kids, 0);
    lemma_flat_wf(nv, false);
    lemma_items_shape(fp, fk, 0, false);
    assert(text == join(items, sep));
    lemma_indent_ws(0);
    assert(sep.len() == 1);
    assert(sep[0] == '\n');
    lemma_skip_ws_exact(text, len, len);
    assert(items_at(text, len, Seq::<Seq<char>>::empty(), false, len));
    if items.len() == 0 {
        assert(text.len() == 0);
        rt_items(text, 0, false, empty_nv(), fp, fk, 0, nv_height(nv), len);
    } else {
        lemma_join_cons(items, sep);
        assert(text[0] == items[0][0]) by {
            if items.len() > 1 {
                assert(text[0] == (items[0] + sep + join(items.drop_first(), sep))[0]);
            }
        }
        lemma_skip_ws_exact(text, 0, 0);
        assert(text.subrange(0, len) =~= text);
        lemma_decompose(text, 0, items, sep, false, len);
        rt_items(text, 0, false, empty_nv(), fp, fk, 0, nv_height(nv), len);
    }
    lemma_rebuild(nv);
}

/// Formatting is idempotent: reformatting the node read back from a
/// well-formed node's text gives the very same text.
pub proof fn lemma_format_idempotent(nv: NodeView)
    requires
        wf_node(nv, false),
    ensures
        (match sp_parse(fmt_doc(nv)) {
            Parsed::Found(out, _) => fmt_doc(out) == fmt_doc(nv),
            Parsed::Failed(_, _) => false,
        }),
{
    lemma_parse_format_roundtrip(nv);
}

} // verus!
