//! The HTML document model: scraper's parse tree, held as plain values in an arena.
use std::collections::HashMap;

use scraper::Html;
use vstd::prelude::*;

use crate::text::chars_of;

verus! {

/// An element: its tag name and its attributes, each as (local name, value), in
/// source order.
pub struct HtmlElement {
    pub name: String,
    pub attrs: Vec<(String, String)>,
}

/// One node of scraper's arena: its children in order, and the element or the
/// text that it is (neither for the document root, a doctype, a comment or a
/// processing instruction).
pub struct DomNode {
    pub children: Vec<usize>,
    pub element: Option<HtmlElement>,
    pub text: Option<String>,
}

pub struct ElementView {
    pub name: Seq<char>,
    pub attrs: Seq<(Seq<char>, Seq<char>)>,
}

/// The value of the first of `attrs` whose name is `key`.
pub open spec fn attr_in(attrs: Seq<(Seq<char>, Seq<char>)>, key: Seq<char>) -> Option<Seq<char>>
    decreases attrs.len(),
{
    if attrs.len() == 0 {
        None
    } else if attrs[0].0 == key {
        Some(attrs[0].1)
    } else {
        attr_in(attrs.drop_first(), key)
    }
}

/// The value of `e`'s first attribute with local name `key`. scraper's
/// `Element::attr` looks for `key` in no namespace; html5ever puts an attribute
/// in a namespace only for the `xlink:`, `xml:` and `xmlns` names of foreign
/// content, which share no local name with the ones the extraction reads.
pub open spec fn attr_of(e: ElementView, key: Seq<char>) -> Option<Seq<char>> {
    attr_in(e.attrs, key)
}

pub struct NodeView {
    pub children: Seq<usize>,
    pub element: Option<ElementView>,
    pub text: Option<Seq<char>>,
}

/// The characters of an optional string.
pub open spec fn opt_chars(o: Option<String>) -> Option<Seq<char>> {
    match o {
        Some(s) => Some(s@),
        None => None,
    }
}

impl View for HtmlElement {
    type V = ElementView;

    open spec fn view(&self) -> ElementView {
        ElementView {
            name: self.name@,
            attrs: self.attrs@.map_values(|a: (String, String)| (a.0@, a.1@)),
        }
    }
}

/// The view of an optional element.
pub open spec fn opt_element(o: Option<HtmlElement>) -> Option<ElementView> {
    match o {
        Some(e) => Some(e@),
        None => None,
    }
}

impl View for DomNode {
    type V = NodeView;

    open spec fn view(&self) -> NodeView {
        NodeView {
            children: self.children@,
            element: opt_element(self.element),
            text: opt_chars(self.text),
        }
    }
}

/// The views of a sequence of nodes.
pub open spec fn nodes_view(nodes: Seq<DomNode>) -> Seq<NodeView> {
    nodes.map_values(|n: DomNode| n@)
}

/// Every child index names a node of the arena.
pub open spec fn links_in_bounds(t: Seq<NodeView>) -> bool {
    forall|i: int, k: int|
        #![trigger t[i].children[k]]
        0 <= i < t.len() && 0 <= k < t[i].children.len() ==> t[i].children[k] < t.len()
}

/// The node arena that html5ever, through scraper, builds from `html`, in the
/// order in which the parser created the nodes.
pub uninterp spec fn html_tree(html: Seq<char>) -> Seq<NodeView>;

/// Parses `html` with `scraper::Html::parse_document` and lists the nodes of its
/// `ego_tree` arena in arena order (`Tree::nodes`), each with the arena positions
/// of its children (`NodeRef::children`) and with its tag name (`Element::name`)
/// and attributes (`Element::attrs`: local name and value, in source order, which
/// scraper's `deterministic` feature keeps), or its text. The result is named, not described: HTML tree construction takes the
/// whole HTML standard to state. The positions come from the same enumeration,
/// so each names a node of the list.
#[verifier::external_body]
fn parse_html_arena(html: &str) -> (nodes: Vec<DomNode>)
    ensures
        nodes_view(nodes@) == html_tree(html@),
        links_in_bounds(nodes_view(nodes@)),
{
    let tree = Html::parse_document(html).tree;
    let pos: HashMap<_, _> = tree.nodes().map(|n| n.id()).zip(0usize..).collect();
    tree.nodes().map(|n| DomNode {
        children: n.children().map(|c| pos[&c.id()]).collect(),
        element: n.value().as_element().map(|e| HtmlElement {
            name: e.name().into(),
            attrs: e.attrs().map(|(k, v)| (k.into(), v.into())).collect(),
        }),
        text: n.value().as_text().map(|t| t.to_string()),
    }).collect()
}

/// The first node among the first `p` of the arena that lists `c` as a child.
pub open spec fn first_parent_below(t: Seq<NodeView>, c: usize, p: nat) -> Option<usize>
    decreases p,
{
    if p == 0 {
        None
    } else {
        match first_parent_below(t, c, (p - 1) as nat) {
            Some(q) => Some(q),
            None => if t[p - 1].children.contains(c) {
                Some((p - 1) as usize)
            } else {
                None
            },
        }
    }
}

/// The parent of node `c`: the node whose children include it (the first one in
/// arena order, should several).
pub open spec fn parent_of(t: Seq<NodeView>, c: usize) -> Option<usize> {
    first_parent_below(t, c, t.len())
}

/// The nodes of the subtree under `i` in document order (preorder), `i` first,
/// descending at most `fuel` levels.
pub open spec fn preorder(t: Seq<NodeView>, i: usize, fuel: nat) -> Seq<usize>
    decreases fuel, 0nat, 0nat,
{
    if fuel == 0 {
        seq![]
    } else {
        seq![i] + preorder_list(t, t[i as int].children, (fuel - 1) as nat)
    }
}

/// The subtrees under each of `cs`, one after the other.
pub open spec fn preorder_list(t: Seq<NodeView>, cs: Seq<usize>, fuel: nat) -> Seq<usize>
    decreases fuel, 1nat, cs.len(),
{
    if cs.len() == 0 {
        seq![]
    } else {
        preorder_list(t, cs.drop_last(), fuel) + preorder(t, cs.last(), fuel)
    }
}

/// The subtree under `i` in document order, `i` first. A tree of `n` nodes is
/// less than `n` levels deep, so the bound on the walk cuts nothing off.
pub open spec fn subtree(t: Seq<NodeView>, i: usize) -> Seq<usize> {
    preorder(t, i, t.len())
}

/// The proper descendants of `i` in document order.
pub open spec fn descendants(t: Seq<NodeView>, i: usize) -> Seq<usize> {
    subtree(t, i).drop_first()
}

/// Node `j` is an element with tag name `tag`.
pub open spec fn is_named(t: Seq<NodeView>, j: usize, tag: Seq<char>) -> bool {
    t[j as int].element matches Some(e) && e.name == tag
}

/// Those of `ids` that are elements named `tag`, in order.
pub open spec fn named_among(t: Seq<NodeView>, ids: Seq<usize>, tag: Seq<char>) -> Seq<usize>
    decreases ids.len(),
{
    if ids.len() == 0 {
        seq![]
    } else {
        let rest = named_among(t, ids.drop_last(), tag);
        if is_named(t, ids.last(), tag) {
            rest.push(ids.last())
        } else {
            rest
        }
    }
}

/// The descendants of `i` that are elements named `tag`, in document order, as
/// `ElementRef::select` with a type selector yields them.
pub open spec fn select(t: Seq<NodeView>, i: usize, tag: Seq<char>) -> Seq<usize> {
    named_among(t, descendants(t, i), tag)
}

/// The first element of `s`, if any.
pub open spec fn first_of(s: Seq<usize>) -> Option<usize> {
    if s.len() > 0 {
        Some(s[0])
    } else {
        None
    }
}

/// The text of the text nodes among `ids`, concatenated in order.
pub open spec fn texts_of(t: Seq<NodeView>, ids: Seq<usize>) -> Seq<char>
    decreases ids.len(),
{
    if ids.len() == 0 {
        seq![]
    } else {
        texts_of(t, ids.drop_last()) + match t[ids.last() as int].text {
            Some(s) => s,
            None => seq![],
        }
    }
}

/// All the text under `i`, in document order, as `ElementRef::text` yields it.
pub open spec fn text_of(t: Seq<NodeView>, i: usize) -> Seq<char> {
    texts_of(t, subtree(t, i))
}

/// The element ancestors of `i`, nearest first: the elements among the nodes
/// reached by following at most `fuel` parent links, as
/// `successors(el.parent(), ..).filter_map(ElementRef::wrap)` yields them (the
/// document root, which is no element, is left out).
pub open spec fn ancestors(t: Seq<NodeView>, i: usize, fuel: nat) -> Seq<usize>
    decreases fuel,
{
    if fuel == 0 {
        seq![]
    } else {
        match parent_of(t, i) {
            None => seq![],
            Some(p) => (if t[p as int].element is Some {
                seq![p]
            } else {
                seq![]
            }) + ancestors(t, p, (fuel - 1) as nat),
        }
    }
}

/// `d` gives each node of `t` a depth below the number of nodes, one more
/// than the depth of any node that lists it as a child.
pub open spec fn depths_ok(t: Seq<NodeView>, d: Seq<nat>) -> bool {
    &&& d.len() == t.len()
    &&& forall|i: int| 0 <= i < t.len() ==> #[trigger] d[i] < t.len()
    &&& forall|i: int, k: int|
        #![trigger t[i].children[k]]
        0 <= i < t.len() && 0 <= k < t[i].children.len() ==> d[t[i].children[k] as int] == d[i] + 1
}

/// The arena is layered, as a tree is: its nodes can be given depths. (An
/// arena in which following children links can return to a node is not.)
pub open spec fn is_layered(t: Seq<NodeView>) -> bool {
    exists|d: Seq<nat>| depths_ok(t, d)
}

/// The number of parent links followed up from `i`, at most `fuel`.
pub open spec fn chain_len(t: Seq<NodeView>, i: usize, fuel: nat) -> nat
    decreases fuel,
{
    if fuel == 0 {
        0
    } else {
        match parent_of(t, i) {
            None => 0,
            Some(p) => 1 + chain_len(t, p, (fuel - 1) as nat),
        }
    }
}

/// Each node's depth counted up its chain of parents (at most as many links as
/// there are nodes).
pub open spec fn parent_depths(t: Seq<NodeView>) -> Seq<nat> {
    Seq::new(t.len(), |i: int| chain_len(t, i as usize, t.len()))
}

/// A parsed HTML document.
pub struct Document {
    nodes: Vec<DomNode>,
    parents: Vec<Option<usize>>,
}

impl View for Document {
    type V = Seq<NodeView>;

    closed spec fn view(&self) -> Seq<NodeView> {
        nodes_view(self.nodes@)
    }
}

impl Document {
    #[verifier::type_invariant]
    closed spec fn consistent(self) -> bool {
        &&& links_in_bounds(nodes_view(self.nodes@))
        &&& self.parents@.len() == self.nodes@.len()
        &&& forall|c: int|
            0 <= c < self.parents@.len() ==> #[trigger] self.parents@[c] == parent_of(
                nodes_view(self.nodes@),
                c as usize,
            )
    }

    /// Parses `html` as a whole document.
    pub fn parse(html: &str) -> (doc: Document)
        ensures
            doc@ == html_tree(html@),
    {
        let nodes = parse_html_arena(html);
        Self::link_parents(nodes)
    }

    /// A document made of the nodes `nodes`, when every child position names one
    /// of them.
    pub fn from_nodes(nodes: Vec<DomNode>) -> (doc: Option<Document>)
        ensures
            match doc {
                Some(d) => links_in_bounds(nodes_view(nodes@)) && d@ == nodes_view(nodes@),
                None => !links_in_bounds(nodes_view(nodes@)),
            },
    {
        let ghost t = nodes_view(nodes@);
        let n = nodes.len();
        let mut i: usize = 0;
        while i < n
            invariant
                n == nodes@.len(),
                t == nodes_view(nodes@),
                i <= n,
                forall|a: int, k: int|
                    #![trigger t[a].children[k]]
                    0 <= a < i && 0 <= k < t[a].children.len() ==> t[a].children[k] < t.len(),
            decreases n - i,
        {
            let children = &nodes[i].children;
            assert(children@ == t[i as int].children);
            let mut k: usize = 0;
            while k < children.len()
                invariant
                    n == nodes@.len(),
                    t == nodes_view(nodes@),
                    i < n,
                    children@ == t[i as int].children,
                    k <= children@.len(),
                    forall|a: int, j: int|
                        #![trigger t[a].children[j]]
                        0 <= a < i && 0 <= j < t[a].children.len() ==> t[a].children[j] < t.len(),
                    forall|j: int| 0 <= j < k ==> #[trigger] t[i as int].children[j] < t.len(),
                decreases children@.len() - k,
            {
                if children[k] >= n {
                    assert(t[i as int].children[k as int] >= t.len());
                    return None;
                }
                k = k + 1;
            }
            i = i + 1;
        }
        Some(Self::link_parents(nodes))
    }

    fn link_parents(nodes: Vec<DomNode>) -> (doc: Document)
        requires
            links_in_bounds(nodes_view(nodes@)),
        ensures
            doc@ == nodes_view(nodes@),
    {
        let ghost t = nodes_view(nodes@);
        let n = nodes.len();
        let mut parents: Vec<Option<usize>> = Vec::new();
        let mut c: usize = 0;
        while c < n
            invariant
                c <= n,
                parents@.len() == c,
                forall|k: int| 0 <= k < c ==> #[trigger] parents@[k] is None,
            decreases n - c,
        {
            parents.push(None);
            c = c + 1;
        }
        let mut p: usize = 0;
        while p < n
            invariant
                n == nodes@.len(),
                t == nodes_view(nodes@),
                links_in_bounds(t),
                p <= n,
                parents@.len() == n,
                forall|c: int|
                    0 <= c < n ==> #[trigger] parents@[c] == first_parent_below(
                        t,
                        c as usize,
                        p as nat,
                    ),
            decreases n - p,
        {
            let children = &nodes[p].children;
            assert(children@ == t[p as int].children);
            let mut k: usize = 0;
            while k < children.len()
                invariant
                    n == nodes@.len(),
                    t == nodes_view(nodes@),
                    links_in_bounds(t),
                    p < n,
                    children@ == t[p as int].children,
                    k <= children@.len(),
                    parents@.len() == n,
                    forall|c: int|
                        0 <= c < n ==> #[trigger] parents@[c] == match first_parent_below(
                            t,
                            c as usize,
                            p as nat,
                        ) {
                            Some(q) => Some(q),
                            None => if children@.take(k as int).contains(c as usize) {
                                Some(p)
                            } else {
                                None
                            },
                        },
                decreases children@.len() - k,
            {
                let ch = children[k];
                assert(ch < n) by {
                    assert(t[p as int].children[k as int] < t.len());
                }
                assert forall|c: int| 0 <= c < n implies #[trigger] children@.take(k + 1).contains(c as usize)
                    == (children@.take(k as int).contains(c as usize) || c == ch) by {
                    if children@.take(k + 1).contains(c as usize) {
                        let j = choose|j: int|
                            #![trigger children@.take(k + 1)[j]]
                            0 <= j < k + 1 && children@.take(k + 1)[j] == c as usize;
                        if j < k {
                            assert(children@.take(k as int)[j] == c as usize);
                        }
                    }
                    if children@.take(k as int).contains(c as usize) {
                        let j = choose|j: int|
                            #![trigger children@.take(k as int)[j]]
                            0 <= j < k && children@.take(k as int)[j] == c as usize;
                        assert(children@.take(k + 1)[j] == c as usize);
                    }
                    if c == ch {
                        assert(children@.take(k + 1)[k as int] == c as usize);
                    }
                }
                if parents[ch].is_none() {
                    parents.set(ch, Some(p));
                }
                k = k + 1;
            }
            assert(children@.take(children@.len() as int) =~= children@);
            p = p + 1;
        }
        Document { nodes, parents }
    }
}

impl Document {
    /// Number of nodes in the arena.
    pub fn len(&self) -> (n: usize)
        ensures
            n == self@.len(),
    {
        self.nodes.len()
    }

    /// The parent of node `i`.
    pub fn parent(&self, i: usize) -> (p: Option<usize>)
        requires
            i < self@.len(),
        ensures
            p == parent_of(self@, i),
            p matches Some(q) ==> q < self@.len(),
    {
        proof {
            use_type_invariant(self);
            lemma_first_parent_below_bound(self@, i, self@.len());
        }
        self.parents[i]
    }

    /// The element that node `i` is, if it is one.
    pub fn element(&self, i: usize) -> (e: Option<&HtmlElement>)
        requires
            i < self@.len(),
        ensures
            opt_element_ref(e) == self@[i as int].element,
    {
        match &self.nodes[i].element {
            Some(e) => Some(e),
            None => None,
        }
    }

    /// Appends the preorder walk under `i`, at most `fuel` levels deep, to `out`.
    fn push_preorder(&self, i: usize, fuel: usize, out: &mut Vec<usize>)
        requires
            i < self@.len(),
            forall|k: int| 0 <= k < old(out)@.len() ==> #[trigger] old(out)@[k] < self@.len(),
        ensures
            final(out)@ == old(out)@ + preorder(self@, i, fuel as nat),
            forall|k: int| 0 <= k < final(out)@.len() ==> #[trigger] final(out)@[k] < self@.len(),
        decreases fuel,
    {
        proof { use_type_invariant(self); }
        if fuel == 0 {
            assert(out@ =~= old(out)@ + preorder(self@, i, fuel as nat));
            return;
        }
        out.push(i);
        let children = &self.nodes[i].children;
        assert(children@ == self@[i as int].children);
        let mut k: usize = 0;
        while k < children.len()
            invariant
                i < self@.len(),
                fuel > 0,
                children@ == self@[i as int].children,
                links_in_bounds(self@),
                k <= children@.len(),
                out@ == old(out)@ + seq![i] + preorder_list(
                    self@,
                    children@.take(k as int),
                    (fuel - 1) as nat,
                ),
                forall|j: int| 0 <= j < out@.len() ==> #[trigger] out@[j] < self@.len(),
            decreases children@.len() - k,
        {
            let c = children[k];
            assert(c < self@.len()) by {
                assert(self@[i as int].children[k as int] < self@.len());
            }
            self.push_preorder(c, fuel - 1, out);
            assert(children@.take(k + 1).drop_last() =~= children@.take(k as int));
            k = k + 1;
        }
        assert(children@.take(children@.len() as int) =~= children@);
        assert(out@ =~= old(out)@ + preorder(self@, i, fuel as nat));
    }

    /// The subtree under `i` in document order, `i` first.
    pub fn subtree(&self, i: usize) -> (ids: Vec<usize>)
        requires
            i < self@.len(),
        ensures
            ids@ == subtree(self@, i),
            forall|k: int| 0 <= k < ids@.len() ==> #[trigger] ids@[k] < self@.len(),
    {
        let mut out: Vec<usize> = Vec::new();
        self.push_preorder(i, self.nodes.len(), &mut out);
        assert(out@ =~= subtree(self@, i));
        out
    }

    /// The descendants of `i` that are elements named `tag`, in document order.
    pub fn select(&self, i: usize, tag: &String) -> (ids: Vec<usize>)
        requires
            i < self@.len(),
        ensures
            ids@ == select(self@, i, tag@),
            forall|k: int| 0 <= k < ids@.len() ==> #[trigger] ids@[k] < self@.len(),
    {
        let all = self.subtree(i);
        let ghost desc = all@.drop_first();
        let mut out: Vec<usize> = Vec::new();
        let mut k: usize = 1;
        while k < all.len()
            invariant
                all@ == subtree(self@, i),
                desc == all@.drop_first(),
                1 <= k <= all@.len() || (k == 1 && all@.len() == 0),
                out@ == named_among(self@, desc.take(k - 1), tag@),
                forall|j: int| 0 <= j < all@.len() ==> #[trigger] all@[j] < self@.len(),
                forall|j: int| 0 <= j < out@.len() ==> #[trigger] out@[j] < self@.len(),
            decreases all@.len() - k,
        {
            let j = all[k];
            assert(desc.take(k as int).drop_last() =~= desc.take(k - 1));
            assert(desc.take(k as int).last() == j);
            let named = match self.element(j) {
                Some(e) => e.name == *tag,
                None => false,
            };
            if named {
                out.push(j);
            }
            k = k + 1;
        }
        proof {
            if all@.len() > 0 {
                assert(desc.take(all@.len() - 1) =~= desc);
            } else {
                assert(desc.take(0) =~= desc);
            }
        }
        out
    }

    /// The first descendant of `i` that is an element named `tag`.
    pub fn select_first(&self, i: usize, tag: &String) -> (r: Option<usize>)
        requires
            i < self@.len(),
        ensures
            r == first_of(select(self@, i, tag@)),
            r matches Some(j) ==> j < self@.len(),
    {
        let all = self.select(i, tag);
        if all.len() > 0 {
            Some(all[0])
        } else {
            None
        }
    }

    /// All the text under `i`, in document order.
    pub fn text(&self, i: usize) -> (s: Vec<char>)
        requires
            i < self@.len(),
        ensures
            s@ == text_of(self@, i),
    {
        let ids = self.subtree(i);
        let mut out: Vec<char> = Vec::new();
        let mut k: usize = 0;
        while k < ids.len()
            invariant
                ids@ == subtree(self@, i),
                k <= ids@.len(),
                out@ == texts_of(self@, ids@.take(k as int)),
                forall|j: int| 0 <= j < ids@.len() ==> #[trigger] ids@[j] < self@.len(),
            decreases ids@.len() - k,
        {
            let j = ids[k];
            assert(ids@.take(k + 1).drop_last() =~= ids@.take(k as int));
            match &self.nodes[j].text {
                Some(t) => {
                    let cs = chars_of(t.as_str());
                    let mut m: usize = 0;
                    let ghost before = out@;
                    while m < cs.len()
                        invariant
                            m <= cs@.len(),
                            out@ == before + cs@.take(m as int),
                        decreases cs@.len() - m,
                    {
                        out.push(cs[m]);
                        assert(cs@.take(m + 1) =~= cs@.take(m as int).push(cs@[m as int]));
                        m = m + 1;
                    }
                    assert(cs@.take(cs@.len() as int) =~= cs@);
                },
                None => {
                    assert(out@ =~= out@ + Seq::<char>::empty());
                },
            }
            k = k + 1;
        }
        assert(ids@.take(ids@.len() as int) =~= ids@);
        out
    }

    /// The element ancestors of `i`, nearest first.
    pub fn ancestors(&self, i: usize) -> (ids: Vec<usize>)
        requires
            i < self@.len(),
        ensures
            ids@ == ancestors(self@, i, self@.len()),
            forall|k: int| 0 <= k < ids@.len() ==> #[trigger] ids@[k] < self@.len(),
            forall|k: int| 0 <= k < ids@.len() ==> (#[trigger] self@[ids@[k] as int]).element is Some,
    {
        let n = self.nodes.len();
        let mut out: Vec<usize> = Vec::new();
        let mut cur = i;
        let mut fuel = n;
        while fuel > 0
            invariant
                n == self@.len(),
                cur < n,
                fuel <= n,
                out@ + ancestors(self@, cur, fuel as nat) == ancestors(self@, i, n as nat),
                forall|k: int| 0 <= k < out@.len() ==> #[trigger] out@[k] < n,
                forall|k: int| 0 <= k < out@.len() ==> (#[trigger] self@[out@[k] as int]).element is Some,
            decreases fuel,
        {
            match self.parent(cur) {
                None => {
                    assert(out@ + ancestors(self@, cur, fuel as nat) =~= out@);
                    return out;
                },
                Some(p) => {
                    let is_element = self.element(p).is_some();
                    if is_element {
                        assert(out@ + ancestors(self@, cur, fuel as nat) =~= out@.push(p) + ancestors(
                            self@,
                            p,
                            (fuel - 1) as nat,
                        ));
                        out.push(p);
                    } else {
                        assert(out@ + ancestors(self@, cur, fuel as nat) =~= out@ + ancestors(
                            self@,
                            p,
                            (fuel - 1) as nat,
                        ));
                    }
                    cur = p;
                    fuel = fuel - 1;
                },
            }
        }
        assert(out@ + ancestors(self@, cur, 0) =~= out@);
        out
    }
}

/// The view of an optional element reference.
pub open spec fn opt_element_ref(o: Option<&HtmlElement>) -> Option<ElementView> {
    match o {
        Some(e) => Some(e@),
        None => None,
    }
}

proof fn lemma_first_parent_below_bound(t: Seq<NodeView>, c: usize, p: nat)
    requires
        p <= t.len(),
    ensures
        first_parent_below(t, c, p) matches Some(q) ==> q < p,
    decreases p,
{
    if p > 0 {
        lemma_first_parent_below_bound(t, c, (p - 1) as nat);
    }
}

impl HtmlElement {
    /// The value of this element's first attribute named `key`.
    pub fn attr(&self, key: &String) -> (r: Option<&String>)
        ensures
            match r {
                Some(v) => attr_of(self@, key@) == Some(v@),
                None => attr_of(self@, key@) is None,
            },
    {
        let ghost all = self@.attrs;
        let mut i: usize = 0;
        assert(all.skip(0) =~= all);
        while i < self.attrs.len()
            invariant
                all == self@.attrs,
                all.len() == self.attrs@.len(),
                i <= all.len(),
                attr_in(all, key@) == attr_in(all.skip(i as int), key@),
            decreases all.len() - i,
        {
            assert(all.skip(i as int)[0] == all[i as int]);
            assert(all[i as int] == (self.attrs@[i as int].0@, self.attrs@[i as int].1@));
            if self.attrs[i].0 == *key {
                return Some(&self.attrs[i].1);
            }
            assert(all.skip(i as int).drop_first() =~= all.skip(i + 1));
            i = i + 1;
        }
        None
    }
}

impl Document {
    /// Whether the depths counted up the parent chains lay the document out as a
    /// tree: every depth below the number of nodes, every child one deeper than
    /// the node listing it. When they do, the document is layered.
    pub fn is_layered(&self) -> (r: bool)
        ensures
            r == depths_ok(self@, parent_depths(self@)),
            r ==> is_layered(self@),
    {
        proof { use_type_invariant(self); }
        let ghost t = self@;
        let n = self.nodes.len();
        let mut d: Vec<usize> = Vec::new();
        let mut i: usize = 0;
        while i < n
            invariant
                t == self@,
                n == t.len(),
                links_in_bounds(t),
                i <= n,
                d@.len() == i,
                forall|j: int| 0 <= j < i ==> #[trigger] d@[j] as nat == parent_depths(t)[j],
            decreases n - i,
        {
            let mut cur = i;
            let mut fuel = n;
            let mut steps: usize = 0;
            let mut going = true;
            while going && fuel > 0
                invariant
                    !going ==> parent_of(t, cur) is None,
                    t == self@,
                    n == t.len(),
                    i < n,
                    cur < n,
                    fuel <= n,
                    steps + fuel == n,
                    steps + chain_len(t, cur, fuel as nat) == chain_len(t, i, n as nat),
                decreases fuel + if going { 1nat } else { 0nat },
            {
                match self.parent(cur) {
                    None => {
                        going = false;
                    },
                    Some(p) => {
                        cur = p;
                        steps = steps + 1;
                        fuel = fuel - 1;
                    },
                }
            }
            d.push(steps);
            i = i + 1;
        }
        let ghost pd = parent_depths(t);
        let mut k: usize = 0;
        while k < n
            invariant
                t == self@,
                n == t.len(),
                links_in_bounds(t),
                pd == parent_depths(t),
                d@.len() == n,
                forall|j: int| 0 <= j < n ==> #[trigger] d@[j] as nat == pd[j],
                k <= n,
                forall|j: int| 0 <= j < k ==> #[trigger] pd[j] < t.len(),
            decreases n - k,
        {
            if d[k] >= n {
                assert(!(pd[k as int] < t.len()));
                return false;
            }
            k = k + 1;
        }
        let mut a: usize = 0;
        while a < n
            invariant
                t == self@,
                n == t.len(),
                links_in_bounds(t),
                pd == parent_depths(t),
                d@.len() == n,
                forall|j: int| 0 <= j < n ==> #[trigger] d@[j] as nat == pd[j],
                forall|j: int| 0 <= j < n ==> #[trigger] pd[j] < t.len(),
                a <= n,
                forall|x: int, y: int|
                    #![trigger t[x].children[y]]
                    0 <= x < a && 0 <= y < t[x].children.len() ==> pd[t[x].children[y] as int]
                        == pd[x] + 1,
            decreases n - a,
        {
            let children = &self.nodes[a].children;
            assert(children@ == t[a as int].children);
            let mut c: usize = 0;
            while c < children.len()
                invariant
                    t == self@,
                    n == t.len(),
                    links_in_bounds(t),
                    pd == parent_depths(t),
                    d@.len() == n,
                    forall|j: int| 0 <= j < n ==> #[trigger] d@[j] as nat == pd[j],
                    forall|j: int| 0 <= j < n ==> #[trigger] pd[j] < t.len(),
                    a < n,
                    children@ == t[a as int].children,
                    c <= children@.len(),
                    forall|x: int, y: int|
                        #![trigger t[x].children[y]]
                        0 <= x < a && 0 <= y < t[x].children.len() ==> pd[t[x].children[y] as int]
                            == pd[x] + 1,
                    forall|y: int| 0 <= y < c ==> pd[#[trigger] t[a as int].children[y] as int] == pd[a as int] + 1,
                decreases children@.len() - c,
            {
                let ch = children[c];
                assert(ch < n) by {
                    assert(t[a as int].children[c as int] < t.len());
                }
                if d[ch] != d[a] + 1 {
                    assert(t[a as int].children[c as int] == ch);
                    return false;
                }
                c = c + 1;
            }
            a = a + 1;
        }
        assert(depths_ok(t, pd));
        true
    }
}

} // verus!
