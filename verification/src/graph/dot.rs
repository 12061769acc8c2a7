//! A graph as a text in the dot language, and back.
use crate::costtype::MulTE;
use crate::graph::Graph;
use crate::io::decimal::{
    decimal, decimal_at, get_decimal, lemma_decimal_unique, lemma_digits, magnitude, put_decimal,
};
use crate::io::{is_plain, lemma_decimal_plain, lemma_plain, plain_chars, plain_string, StrIO};
use crate::network::{last_from, mate, Arc, Network};
use crate::scalar::Scalar;
use dot_structures::{Attribute, EdgeTy, GraphAttributes, Id, NodeId, Subgraph, Vertex};
use vstd::utf8::encode_utf8_decode_utf8;
use vstd::prelude::*;

verus! {

/// An end of an edge statement: a node, named by its id, or something else.
pub enum DotEnd {
    Node(String),
    Other,
}

/// A statement of a dot graph, as far as a flow network is read from it: a
/// node with its attributes, an edge with its ends and attributes, or
/// something else.
pub enum DotStmt {
    Node { id: String, attrs: Vec<(String, String)> },
    Edge { from: DotEnd, to: DotEnd, attrs: Vec<(String, String)> },
    Other,
}

/// A dot graph, as far as a flow network is read from it.
pub struct DotGraph {
    pub name: String,
    pub directed: bool,
    pub stmts: Vec<DotStmt>,
}

/// What an end holds.
pub enum EndModel {
    Node(Seq<char>),
    Other,
}

/// What a statement holds.
pub enum StmtModel {
    Node { id: Seq<char>, attrs: Seq<(Seq<char>, Seq<char>)> },
    Edge { from: EndModel, to: EndModel, attrs: Seq<(Seq<char>, Seq<char>)> },
    Other,
}

/// What a dot graph holds.
pub struct DotModel {
    pub name: Seq<char>,
    pub directed: bool,
    pub stmts: Seq<StmtModel>,
}

/// What a list of attributes holds.
pub open spec fn attrs_view(attrs: Seq<(String, String)>) -> Seq<(Seq<char>, Seq<char>)> {
    Seq::new(attrs.len(), |i: int| (attrs[i].0@, attrs[i].1@))
}

impl DotEnd {
    /// What this end holds.
    pub open spec fn view(&self) -> EndModel {
        match self {
            DotEnd::Node(id) => EndModel::Node(id@),
            DotEnd::Other => EndModel::Other,
        }
    }
}

impl DotStmt {
    /// What this statement holds.
    pub open spec fn view(&self) -> StmtModel {
        match self {
            DotStmt::Node { id, attrs } => StmtModel::Node { id: id@, attrs: attrs_view(attrs@) },
            DotStmt::Edge { from, to, attrs } => StmtModel::Edge {
                from: from@,
                to: to@,
                attrs: attrs_view(attrs@),
            },
            DotStmt::Other => StmtModel::Other,
        }
    }
}

impl DotGraph {
    /// What this graph holds.
    pub open spec fn view(&self) -> DotModel {
        DotModel {
            name: self.name@,
            directed: self.directed,
            stmts: Seq::new(self.stmts@.len(), |i: int| self.stmts@[i]@),
        }
    }
}

/// The label of an arc: in quotes, what has been moved along it, what it
/// could hold in all, and its cost, as `"moved/total,cost"`.
pub open spec fn label_text(moved: int, total: int, cost: int) -> Seq<u8> {
    seq![34u8] + decimal(moved) + seq![47u8] + decimal(total) + seq![44u8] + decimal(cost)
        + seq![34u8]
}

/// The label of an arc.
pub fn edge_label<T: Scalar, E: Scalar>(moved: &T, total: &T, cost: &E) -> (r: Vec<u8>)
    ensures
        r@ == label_text(moved.value(), total.value(), cost.value()),
        is_plain(r@),
{
    let mut out: Vec<u8> = Vec::new();
    out.push(34);
    put_decimal(moved, &mut out);
    out.push(47);
    put_decimal(total, &mut out);
    out.push(44);
    put_decimal(cost, &mut out);
    out.push(34);
    proof {
        let t = label_text(moved.value(), total.value(), cost.value());
        assert(out@ =~= t);
        lemma_label_plain(moved.value(), total.value(), cost.value());
    }
    out
}

/// A label is plain text.
pub proof fn lemma_label_plain(moved: int, total: int, cost: int)
    ensures
        is_plain(label_text(moved, total, cost)),
{
    lemma_decimal_plain(moved);
    lemma_decimal_plain(total);
    lemma_decimal_plain(cost);
    let a = decimal(moved);
    let b = decimal(total);
    let c = decimal(cost);
    let t = label_text(moved, total, cost);
    assert forall|i: int| 0 <= i < t.len() implies (#[trigger] t[i]) < 128 by {
        if i == 0 {
        } else if i < 1 + a.len() {
            assert(t[i] == a[i - 1]);
        } else if i == 1 + a.len() {
        } else if i < 2 + a.len() + b.len() {
            assert(t[i] == b[i - 2 - a.len()]);
        } else if i == 2 + a.len() + b.len() {
        } else if i < 3 + a.len() + b.len() + c.len() {
            assert(t[i] == c[i - 3 - a.len() - b.len()]);
        } else {
        }
    }
}

/// Where the numbers of a label stand in it.
pub proof fn lemma_label_parts(moved: int, total: int, cost: int)
    ensures
        ({
            let t = label_text(moved, total, cost);
            let a = decimal(moved).len() as int;
            let b = decimal(total).len() as int;
            let c = decimal(cost).len() as int;
            &&& t.len() == 4 + a + b + c
            &&& t[0] == 34
            &&& decimal_at(t, 1, moved, 1 + a)
            &&& t[1 + a] == 47
            &&& decimal_at(t, 2 + a, total, 2 + a + b)
            &&& t[2 + a + b] == 44
            &&& decimal_at(t, 3 + a + b, cost, 3 + a + b + c)
            &&& t[3 + a + b + c] == 34
        }),
{
    let t = label_text(moved, total, cost);
    let a = decimal(moved).len() as int;
    let b = decimal(total).len() as int;
    let c = decimal(cost).len() as int;
    lemma_digits(magnitude(moved));
    lemma_digits(magnitude(total));
    lemma_digits(magnitude(cost));
    assert(t.subrange(1, 1 + a) =~= decimal(moved));
    assert(t.subrange(2 + a, 2 + a + b) =~= decimal(total));
    assert(t.subrange(3 + a + b, 3 + a + b + c) =~= decimal(cost));
}

/// The three numbers of a label, if `a` is the label of an arc with
/// numbers that `T` and `E` can hold.
#[verifier::rlimit(30)]
pub fn parse_edge_label<T: Scalar, E: Scalar>(a: &[u8]) -> (r: Option<(T, T, E)>)
    ensures
        match r {
            Some((moved, total, cost)) => a@ == label_text(
                moved.value(),
                total.value(),
                cost.value(),
            ),
            None => forall|moved: T, total: T, cost: E|
                a@ != #[trigger] label_text(moved.value(), total.value(), cost.value()),
        },
{
    let n = a.len();
    proof {
        assert forall|x: T, y: T, z: E|
            a@ == #[trigger] label_text(x.value(), y.value(), z.value()) implies n >= 7 && a@[0]
            == 34 && decimal_at(a@, 1, x.value(), (1 + decimal(x.value()).len()) as int) by {
            lemma_label_parts(x.value(), y.value(), z.value());
        }
    }
    if n < 7 || a[0] != 34 {
        return None;
    }
    let (moved, slash) = match get_decimal::<T>(a, 1) {
        Some(pair) => pair,
        None => {
            return None;
        },
    };
    proof {
        assert forall|x: T, y: T, z: E|
            a@ == #[trigger] label_text(x.value(), y.value(), z.value()) implies x.value()
            == moved.value() && slash + 1 < n && a@[slash as int] == 47 && decimal_at(
            a@,
            slash + 1,
            y.value(),
            (slash + 1 + decimal(y.value()).len()) as int,
        ) by {
            lemma_label_parts(x.value(), y.value(), z.value());
            lemma_decimal_unique(
                a@,
                1,
                x.value(),
                (1 + decimal(x.value()).len()) as int,
                moved.value(),
                slash as int,
            );
        }
    }
    if slash >= n - 1 || a[slash] != 47 {
        return None;
    }
    let (total, comma) = match get_decimal::<T>(a, slash + 1) {
        Some(pair) => pair,
        None => {
            return None;
        },
    };
    proof {
        assert forall|x: T, y: T, z: E|
            a@ == #[trigger] label_text(x.value(), y.value(), z.value()) implies y.value()
            == total.value() && comma + 1 < n && a@[comma as int] == 44 && decimal_at(
            a@,
            comma + 1,
            z.value(),
            (comma + 1 + decimal(z.value()).len()) as int,
        ) by {
            lemma_label_parts(x.value(), y.value(), z.value());
            lemma_decimal_unique(
                a@,
                slash + 1,
                y.value(),
                (slash + 1 + decimal(y.value()).len()) as int,
                total.value(),
                comma as int,
            );
        }
    }
    if comma >= n - 1 || a[comma] != 44 {
        return None;
    }
    let (cost, quote) = match get_decimal::<E>(a, comma + 1) {
        Some(pair) => pair,
        None => {
            return None;
        },
    };
    proof {
        assert forall|x: T, y: T, z: E|
            a@ == #[trigger] label_text(x.value(), y.value(), z.value()) implies z.value()
            == cost.value() && quote + 1 == n && a@[quote as int] == 34 by {
            lemma_label_parts(x.value(), y.value(), z.value());
            lemma_decimal_unique(
                a@,
                comma + 1,
                z.value(),
                (comma + 1 + decimal(z.value()).len()) as int,
                cost.value(),
                quote as int,
            );
        }
    }
    if quote != n - 1 || a[quote] != 34 {
        return None;
    }
    proof {
        let t = label_text(moved.value(), total.value(), cost.value());
        assert(a@ =~= a@.subrange(0, 1) + a@.subrange(1, slash as int) + a@.subrange(
            slash as int,
            slash + 1,
        ) + a@.subrange(slash + 1, comma as int) + a@.subrange(comma as int, comma + 1) + a@.subrange(
            comma + 1,
            quote as int,
        ) + a@.subrange(quote as int, n as int));
        assert(a@.subrange(0, 1) =~= seq![34u8]);
        assert(a@.subrange(slash as int, slash + 1) =~= seq![47u8]);
        assert(a@.subrange(comma as int, comma + 1) =~= seq![44u8]);
        assert(a@.subrange(quote as int, n as int) =~= seq![34u8]);
    }
    Some((moved, total, cost))
}

/// Text is the decimal text of at most one number.
pub proof fn lemma_text_unique(v: int, w: int)
    requires
        plain_chars(decimal(v)) == plain_chars(decimal(w)),
    ensures
        v == w,
{
    lemma_decimal_plain(v);
    lemma_decimal_plain(w);
    lemma_plain(decimal(v));
    lemma_plain(decimal(w));
    let a = decimal(v);
    lemma_digits(magnitude(v));
    lemma_digits(magnitude(w));
    assert(a.subrange(0, a.len() as int) =~= a);
    lemma_decimal_unique(a, 0, v, a.len() as int, w, a.len() as int);
}

/// Text is the label of at most one triple of numbers.
pub proof fn lemma_label_unique(a: int, b: int, c: int, x: int, y: int, z: int)
    requires
        plain_chars(label_text(a, b, c)) == plain_chars(label_text(x, y, z)),
    ensures
        a == x,
        b == y,
        c == z,
{
    lemma_label_plain(a, b, c);
    lemma_label_plain(x, y, z);
    lemma_plain(label_text(a, b, c));
    lemma_plain(label_text(x, y, z));
    let t = label_text(a, b, c);
    lemma_label_parts(a, b, c);
    lemma_label_parts(x, y, z);
    lemma_decimal_unique(t, 1, a, (1 + decimal(a).len()) as int, x, (1 + decimal(x).len()) as int);
    lemma_decimal_unique(
        t,
        (2 + decimal(a).len()) as int,
        b,
        (2 + decimal(a).len() + decimal(b).len()) as int,
        y,
        (2 + decimal(x).len() + decimal(y).len()) as int,
    );
    lemma_decimal_unique(
        t,
        (3 + decimal(a).len() + decimal(b).len()) as int,
        c,
        (3 + decimal(a).len() + decimal(b).len() + decimal(c).len()) as int,
        z,
        (3 + decimal(x).len() + decimal(y).len() + decimal(z).len()) as int,
    );
}

/// Whether the statement, read when there are `n` vertices and `m` arcs,
/// is an edge from vertex `u` to another vertex `v` whose first attribute
/// has as its value the label with the numbers `x`, `y` and `z`, of which
/// the first is neither negative nor more than the second.
pub open spec fn reads_arc<T: Scalar, E: Scalar>(
    stmt: StmtModel,
    n: int,
    m: int,
    u: usize,
    v: usize,
    x: T,
    y: T,
    z: E,
) -> bool {
    &&& stmt is Edge
    &&& stmt->Edge_from == EndModel::Node(u.text())
    &&& stmt->Edge_to == EndModel::Node(v.text())
    &&& stmt->Edge_attrs.len() > 0
    &&& stmt->Edge_attrs[0].1 == plain_chars(label_text(x.value(), y.value(), z.value()))
    &&& u < n
    &&& v < n
    &&& u != v
    &&& 0 <= x.value() <= y.value()
    &&& m + 2 <= usize::MAX
}

/// A statement reads as at most one arc.
pub proof fn lemma_reads_unique<T: Scalar, E: Scalar>(
    stmt: StmtModel,
    n: int,
    m: int,
    u: usize,
    v: usize,
    x: T,
    y: T,
    z: E,
    u2: usize,
    v2: usize,
    x2: T,
    y2: T,
    z2: E,
)
    requires
        reads_arc(stmt, n, m, u, v, x, y, z),
        reads_arc(stmt, n, m, u2, v2, x2, y2, z2),
    ensures
        u == u2,
        v == v2,
        x.value() == x2.value(),
        y.value() == y2.value(),
        z.value() == z2.value(),
{
    lemma_text_unique(u as int, u2 as int);
    lemma_text_unique(v as int, v2 as int);
    lemma_label_unique(
        x.value(),
        y.value(),
        z.value(),
        x2.value(),
        y2.value(),
        z2.value(),
    );
}

/// What a list of statements describes: so many vertices, these arcs, and
/// these texts as the labels of the vertices.
pub struct Built {
    pub n: int,
    pub arcs: Seq<Arc>,
    pub texts: Seq<Seq<char>>,
}

/// The arcs after an arc from `u` to `v` that holds `total` and costs
/// `cost` has been added, and `moved` has been moved along it.
pub open spec fn arcs_with(arcs: Seq<Arc>, u: int, v: int, moved: int, total: int, cost: int) -> Seq<
    Arc,
> {
    let before = Network { heads: Seq::empty(), arcs };
    let added = Network { heads: Seq::empty(), arcs: before.added(u, v, total, cost) };
    added.pushed(arcs.len() as int, moved).arcs
}

/// What is described after one more statement: a node statement adds a
/// vertex with the value of its first attribute as the text of its label,
/// an edge statement adds the arc that it reads as, and another statement
/// adds nothing.  Nothing is described where a node has no attribute or
/// one that is the text of no label, or an edge reads as no arc.
pub open spec fn built_step<L: StrIO, T: Scalar, E: Scalar>(
    before: Option<Built>,
    stmt: StmtModel,
) -> Option<Built> {
    match before {
        None => None,
        Some(b) => {
            if stmt is Other {
                Some(b)
            } else if stmt is Node {
                let attrs = stmt->Node_attrs;
                if attrs.len() > 0 && exists|l: L| #[trigger] l.text() == attrs[0].1 {
                    Some(Built { n: b.n + 1, arcs: b.arcs, texts: b.texts.push(attrs[0].1) })
                } else {
                    None
                }
            } else {
                if exists|u: usize, v: usize, x: T, y: T, z: E|
                    reads_arc(stmt, b.n, b.arcs.len() as int, u, v, x, y, z) {
                    let (u, v, x, y, z) = choose|u: usize, v: usize, x: T, y: T, z: E|
                        reads_arc(stmt, b.n, b.arcs.len() as int, u, v, x, y, z);
                    Some(
                        Built {
                            n: b.n,
                            arcs: arcs_with(
                                b.arcs,
                                u as int,
                                v as int,
                                x.value(),
                                y.value(),
                                z.value(),
                            ),
                            texts: b.texts,
                        },
                    )
                } else {
                    None
                }
            }
        },
    }
}

/// What the first `k` statements describe, if they describe anything.
pub open spec fn built<L: StrIO, T: Scalar, E: Scalar>(stmts: Seq<StmtModel>, k: int) -> Option<
    Built,
>
    decreases k,
{
    if k <= 0 {
        Some(Built { n: 0, arcs: Seq::empty(), texts: Seq::empty() })
    } else {
        built_step::<L, T, E>(built::<L, T, E>(stmts, k - 1), stmts[k - 1])
    }
}

/// The statement of vertex `v` with the label text `label`: a node named
/// by the number of the vertex, with the label as its attribute.
pub open spec fn node_stmt(v: int, label: Seq<char>) -> StmtModel {
    StmtModel::Node { id: plain_chars(decimal(v)), attrs: seq![("label"@, label)] }
}

/// The statement of the user-added arc `e` of `net`: an edge between the
/// nodes of its ends, with its label as attribute.
pub open spec fn edge_stmt(net: Network, e: int) -> StmtModel {
    StmtModel::Edge {
        from: EndModel::Node(plain_chars(decimal(net.arcs[e].from))),
        to: EndModel::Node(plain_chars(decimal(net.arcs[e].to))),
        attrs: seq![
            (
                "label"@,
                plain_chars(
                    label_text(
                        net.arcs[mate(e)].cap,
                        net.arcs[e].cap + net.arcs[mate(e)].cap,
                        net.arcs[e].cost,
                    ),
                ),
            ),
        ],
    }
}

/// The text of a dot graph in the dot language, as the printer of
/// `graphviz_rust_bla` writes it with its default settings.
pub uninterp spec fn dot_text(g: DotModel) -> Seq<char>;

#[verifier::external_type_specification]
#[verifier::external_body]
pub struct ExStmt(dot_structures::Stmt);

#[verifier::external_type_specification]
#[verifier::external_body]
pub struct ExAttribute(dot_structures::Attribute);

#[verifier::external_type_specification]
#[verifier::external_body]
pub struct ExVertex(dot_structures::Vertex);

/// A list of attributes of `dot_structures` with each id as its text.
#[verifier::external_body]
fn plain_attrs(attrs: &Vec<dot_structures::Attribute>) -> Vec<(String, String)> {
    let id = |i: &Id| match i {
        Id::Html(s) | Id::Escaped(s) | Id::Plain(s) | Id::Anonymous(s) => s.clone(),
    };
    attrs.iter().map(|x| (id(&x.0), id(&x.1))).collect()
}

/// An end of an edge of `dot_structures`: the node with its id as its
/// text, or something else.
#[verifier::external_body]
fn plain_end(v: &dot_structures::Vertex) -> DotEnd {
    match v {
        Vertex::N(NodeId(Id::Html(s) | Id::Escaped(s) | Id::Plain(s) | Id::Anonymous(s), _)) => {
            DotEnd::Node(s.clone())
        },
        Vertex::S(_) => DotEnd::Other,
    }
}

/// A statement of `dot_structures` as a plain statement: a node with its
/// id and attributes, each id as its text; an edge with its ends and
/// attributes, both ends of an edge that is a chain of more than two
/// vertices being something else than a node; or something else.
#[verifier::external_body]
fn plain_stmt(s: &dot_structures::Stmt) -> DotStmt {
    match s {
        dot_structures::Stmt::Node(n) => match &n.id.0 {
            Id::Html(s) | Id::Escaped(s) | Id::Plain(s) | Id::Anonymous(s) => {
                DotStmt::Node { id: s.clone(), attrs: plain_attrs(&n.attributes) }
            },
        },
        dot_structures::Stmt::Edge(e) => match (&e.ty, plain_attrs(&e.attributes)) {
            (EdgeTy::Pair(u, v), attrs) => DotStmt::Edge { from: plain_end(u), to: plain_end(v), attrs },
            (EdgeTy::Chain(_), attrs) => DotStmt::Edge { from: DotEnd::Other, to: DotEnd::Other, attrs },
        },
        _ => DotStmt::Other,
    }
}

/// What the parser of `graphviz_rust_bla` finds in a text where it finds a
/// graph, as a plain dot graph: whether the graph is directed, and its
/// statements in their order, each id as its text.  The name of the graph
/// is left empty, and a subgraph counts as something else than a node or an
/// edge, so that the names which the parser draws by chance for a graph or
/// a subgraph without one are no part of it.  Whether the parser finds a
/// graph does not depend on the text alone: it gives up where its stack or
/// its budget of calls runs out.
pub uninterp spec fn dot_parsed(text: Seq<char>) -> Option<DotModel>;

/// `graphviz_rust_bla::parse`: the graph that a text in the dot language
/// holds, as a plain dot graph with an empty name, which is the same
/// whenever one is found; nothing where the parser refuses the text.
#[verifier::external_body]
fn parse_dot(text: &str) -> (r: Option<DotGraph>)
    ensures
        r matches Some(g) ==> dot_parsed(text@) == Some(g@),
{
    let (directed, found) = match graphviz_rust_bla::parse(text) {
        Ok(dot_structures::Graph::Graph { stmts, .. }) => (false, stmts),
        Ok(dot_structures::Graph::DiGraph { stmts, .. }) => (true, stmts),
        Err(_) => return None,
    };
    Some(DotGraph { name: String::new(), directed, stmts: found.iter().map(plain_stmt).collect() })
}

/// A list of attributes as `dot_structures` holds them, with plain ids.
#[verifier::external_body]
fn dot_attrs(attrs: &Vec<(String, String)>) -> Vec<dot_structures::Attribute> {
    attrs.iter().map(|a| Attribute(Id::Plain(a.0.clone()), Id::Plain(a.1.clone()))).collect()
}

/// An end as `dot_structures` holds it: the node with the plain id and no
/// port, or an empty subgraph without a name.
#[verifier::external_body]
fn dot_end(end: &DotEnd) -> dot_structures::Vertex {
    match end {
        DotEnd::Node(id) => Vertex::N(NodeId(Id::Plain(id.clone()), None)),
        DotEnd::Other => Vertex::S(Subgraph { id: Id::Anonymous(String::new()), stmts: vec![] }),
    }
}

/// A statement as `dot_structures` holds it, a node with a plain id and no
/// port; what is neither node nor edge becomes an empty list of graph
/// attributes.
#[verifier::external_body]
fn dot_stmt(s: &DotStmt) -> dot_structures::Stmt {
    match s {
        DotStmt::Node { id, attrs } => dot_structures::Stmt::Node(
            dot_structures::Node { id: NodeId(Id::Plain(id.clone()), None), attributes: dot_attrs(attrs) },
        ),
        DotStmt::Edge { from, to, attrs } => dot_structures::Stmt::Edge(
            dot_structures::Edge {
                ty: EdgeTy::Pair(dot_end(from), dot_end(to)),
                attributes: dot_attrs(attrs),
            },
        ),
        DotStmt::Other => dot_structures::Stmt::GAttribute(GraphAttributes::Graph(vec![])),
    }
}

/// `DotPrinter::print` of `graphviz_rust_bla` on the graph with the plain
/// id `name` and these statements, with the default settings: its text in
/// the dot language, which depends on nothing else.
#[verifier::external_body]
fn print_dot(g: &DotGraph) -> (r: String)
    ensures
        r@ == dot_text(g@),
{
    let id = Id::Plain(g.name.clone());
    let stmts = g.stmts.iter().map(dot_stmt).collect();
    let graph = if g.directed {
        dot_structures::Graph::DiGraph { id, strict: false, stmts }
    } else {
        dot_structures::Graph::Graph { id, strict: false, stmts }
    };
    graphviz_rust_bla::printer::DotPrinter::print(
        &graph,
        &mut graphviz_rust_bla::printer::PrinterContext::default(),
    )
}

impl<L: StrIO, T: Scalar, E: Scalar, M: MulTE<T, E>> Graph<L, T, E, M> {
    /// What `to_dot` makes of the graph.
    pub open spec fn dot_model(&self, name: Seq<char>) -> DotModel {
        DotModel {
            name,
            directed: true,
            stmts: Seq::new(
                (self@.n() + self@.m() / 2) as nat,
                |i: int|
                    if i < self@.n() {
                        node_stmt(i, self.labels()[i].text())
                    } else {
                        edge_stmt(self@, 2 * (i - self@.n()))
                    },
            ),
        }
    }

    /// The graph as a dot graph named `name`: a node statement for every
    /// vertex, in their order, and then an edge statement for every
    /// user-added arc, in their order.
    pub fn to_dot(&self, name: &str) -> (r: DotGraph)
        requires
            self.wf(),
        ensures
            r@ == self.dot_model(name@),
    {
        let ghost net = self@;
        let ghost limit = T::max_value();
        let n = self.labels.len();
        let m = self.edges.len();
        let mut stmts: Vec<DotStmt> = Vec::new();
        let mut v: usize = 0;
        while v < n
            invariant
                0 <= v <= n,
                n == self.labels@.len(),
                stmts@.len() == v,
                forall|u: int|
                    0 <= u < v ==> (#[trigger] stmts@[u])@ == node_stmt(u, self.labels()[u].text()),
            decreases n - v,
        {
            let id = v.to_str();
            let label = self.labels[v].to_str();
            let mut attrs: Vec<(String, String)> = Vec::new();
            attrs.push(("label".to_owned(), label));
            let stmt = DotStmt::Node { id, attrs };
            proof {
                assert(attrs_view(attrs@) =~= seq![("label"@, self.labels()[v as int].text())]);
            }
            stmts.push(stmt);
            v = v + 1;
        }
        let mut e: usize = 0;
        while e < m
            invariant
                self.wf(),
                net == self@,
                limit == T::max_value(),
                n == net.n(),
                m == net.m(),
                m % 2 == 0,
                e % 2 == 0,
                0 <= e <= m,
                stmts@.len() == n + e / 2,
                forall|u: int|
                    0 <= u < n ==> (#[trigger] stmts@[u])@ == node_stmt(u, self.labels()[u].text()),
                forall|k: int|
                    0 <= k < e / 2 ==> (#[trigger] stmts@[n + k])@ == edge_stmt(net, 2 * k),
            decreases m - e,
        {
            let edge = &self.edges[e];
            let back = &self.edges[e + 1];
            proof {
                assert(net.arc_ok(e as int, limit));
                assert(net.arc_ok(e + 1, limit));
                assert(mate(e as int) == e + 1);
                assert(edge@ == net.arcs[e as int]);
                assert(back@ == net.arcs[e + 1]);
                edge.weight.lemma_bounds();
            }
            let total = edge.weight.plus(&back.weight);
            let label = plain_string(edge_label(&back.weight, &total, &edge.cost));
            let mut attrs: Vec<(String, String)> = Vec::new();
            attrs.push(("label".to_owned(), label));
            let stmt = DotStmt::Edge {
                from: DotEnd::Node(edge.from.to_str()),
                to: DotEnd::Node(edge.to.to_str()),
                attrs,
            };
            proof {
                let want = edge_stmt(net, e as int);
                assert(attrs_view(attrs@) =~= want->Edge_attrs);
                assert(stmt@ == want);
            }
            let ghost before = stmts@;
            stmts.push(stmt);
            proof {
                assert forall|k: int| 0 <= k < (e + 2) / 2 implies (#[trigger] stmts@[n + k])@
                    == edge_stmt(net, 2 * k) by {
                    if k < e / 2 {
                        assert(stmts@[n + k] == before[n + k]);
                    }
                }
                assert forall|u: int| 0 <= u < n implies (#[trigger] stmts@[u])@ == node_stmt(
                    u,
                    self.labels()[u].text(),
                ) by {
                    assert(stmts@[u] == before[u]);
                }
            }
            e = e + 2;
        }
        let r = DotGraph { name: name.to_owned(), directed: true, stmts };
        proof {
            let want = self.dot_model(name@).stmts;
            assert(r@.stmts.len() == want.len());
            assert forall|i: int| 0 <= i < want.len() implies r@.stmts[i] == want[i] by {
                if i >= n {
                    let k = i - n;
                    assert(stmts@[n + k]@ == edge_stmt(net, 2 * k));
                } else {
                    assert(stmts@[i]@ == node_stmt(i, self.labels()[i].text()));
                }
            }
            assert(r@.stmts =~= want);
        }
        r
    }

    /// The text of the graph in the dot language, as a graph named `name`.
    pub fn to_dot_text(&self, name: &str) -> (r: String)
        requires
            self.wf(),
        ensures
            r@ == dot_text(self.dot_model(name@)),
    {
        let g = self.to_dot(name);
        print_dot(&g)
    }

    /// The flow network that a text in the dot language describes, as
    /// `try_from_dot_graph` reads it from what the parser finds in the
    /// text; nothing where the parser refuses the text, or what it finds
    /// is no directed graph that describes a flow network.
    pub fn from_dot_text(text: &str) -> (r: Option<Self>)
        ensures
            r is Some ==> (dot_parsed(text@) matches Some(g) && Self::read_as(g, r)),
    {
        match parse_dot(text) {
            Some(g) => Self::try_from_dot_graph(&g),
            None => None,
        }
    }

    /// Whether `r` is what is read from the dot graph `g`: the flow network
    /// that it describes, where it is directed and describes one, and
    /// nothing otherwise.
    pub open spec fn read_as(g: DotModel, r: Option<Self>) -> bool {
        match r {
            Some(h) => {
                &&& g.directed
                &&& h.wf()
                &&& built::<L, T, E>(g.stmts, g.stmts.len() as int) matches Some(b)
                &&& h@.n() == b.n
                &&& h@.arcs == b.arcs
                &&& h.labels().len() == b.texts.len()
                &&& forall|i: int|
                    0 <= i < b.texts.len() ==> (#[trigger] h.labels()[i]).text() == b.texts[i]
            },
            None => !g.directed || built::<L, T, E>(g.stmts, g.stmts.len() as int) is None,
        }
    }

    /// The flow network that a directed dot graph describes, as
    /// `try_from_dot_graph` reads it.  The graph must be directed and
    /// describe one.
    pub fn from_dot_graph(g: &DotGraph) -> (r: Self)
        requires
            g@.directed,
            built::<L, T, E>(g@.stmts, g@.stmts.len() as int) is Some,
        ensures
            Self::read_as(g@, Some(r)),
    {
        match Self::try_from_dot_graph(g) {
            Some(h) => h,
            None => vstd::pervasive::unreached(),
        }
    }

    /// The flow network that a directed dot graph describes: a vertex for
    /// every node statement, labelled by the value of its first attribute,
    /// and an arc for every edge statement between two nodes that are named
    /// by the numbers of vertices before it, with the numbers of its label,
    /// which is the value of its first attribute.  Other statements count
    /// for nothing.  There is no such network where the graph is not
    /// directed, a node or an edge has no attribute, a label cannot be read,
    /// an edge does not lead from one vertex to another, or more has been
    /// moved along an arc than it holds.
    pub fn try_from_dot_graph(g: &DotGraph) -> (r: Option<Self>)
        ensures
            Self::read_as(g@, r),
    {
        if !g.directed {
            return None;
        }
        let mut h = Self::new();
        let ghost stmts = g@.stmts;
        let mut i: usize = 0;
        proof {
            assert(h@.arcs =~= Seq::<Arc>::empty());
        }
        while i < g.stmts.len()
            invariant
                0 <= i <= g.stmts@.len(),
                stmts == g@.stmts,
                h.wf(),
                built::<L, T, E>(stmts, i as int) matches Some(b) && h@.n() == b.n && h@.arcs
                    == b.arcs && h.labels().len() == b.texts.len() && forall|j: int|
                    0 <= j < b.texts.len() ==> (#[trigger] h.labels()[j]).text() == b.texts[j],
            ensures
                i == g.stmts@.len(),
                h.wf(),
                built::<L, T, E>(stmts, i as int) matches Some(b) && h@.n() == b.n && h@.arcs
                    == b.arcs && h.labels().len() == b.texts.len() && forall|j: int|
                    0 <= j < b.texts.len() ==> (#[trigger] h.labels()[j]).text() == b.texts[j],
            decreases g.stmts@.len() - i,
        {
            let ghost before = built::<L, T, E>(stmts, i as int)->Some_0;
            let ghost stmt = stmts[i as int];
            proof {
                assert(stmt == g.stmts@[i as int]@);
                assert(built::<L, T, E>(stmts, i + 1) == built_step::<L, T, E>(
                    built::<L, T, E>(stmts, i as int),
                    stmt,
                ));
                if built::<L, T, E>(stmts, i + 1) is None {
                    lemma_built_none::<L, T, E>(stmts, i + 1, g.stmts@.len() as int);
                }
            }
            match &g.stmts[i] {
                DotStmt::Node { attrs, .. } => {
                    if attrs.len() == 0 {
                        return None;
                    }
                    proof {
                        assert(attrs_view(attrs@)[0].1 == attrs@[0].1@);
                    }
                    let label = match L::try_from_str(attrs[0].1.as_str()) {
                        Some(label) => label,
                        None => {
                            return None;
                        },
                    };
                    let ghost labels_before = h.labels();
                    h.add_node_owned(label);
                    proof {
                        let after = built::<L, T, E>(stmts, i + 1)->Some_0;
                        assert forall|j: int| 0 <= j < after.texts.len() implies (
                        #[trigger] h.labels()[j]).text() == after.texts[j] by {
                            if j < labels_before.len() {
                                assert(h.labels()[j] == labels_before[j]);
                            }
                        }
                    }
                },
                DotStmt::Edge { from, to, attrs } => {
                    let n = h.first.len();
                    let m = h.edges.len();
                    let (u, v, moved, total, cost) = match Self::read_arc(from, to, attrs, n, m) {
                        Some(numbers) => numbers,
                        None => {
                            return None;
                        },
                    };
                    proof {
                        let (u2, v2, x2, y2, z2) = choose|
                            u2: usize,
                            v2: usize,
                            x2: T,
                            y2: T,
                            z2: E,
                        | reads_arc(stmt, before.n, before.arcs.len() as int, u2, v2, x2, y2, z2);
                        lemma_reads_unique(
                            stmt,
                            n as int,
                            m as int,
                            u,
                            v,
                            moved,
                            total,
                            cost,
                            u2,
                            v2,
                            x2,
                            y2,
                            z2,
                        );
                    }
                    let ghost old_arcs = h@.arcs;
                    h.add_edge2(u, v, &total, &cost);
                    proof {
                        let net = h@;
                        assert(net.arcs[m as int].cap == total.value());
                        crate::network::laws::lemma_pushed(
                            net,
                            T::max_value(),
                            m as int,
                            moved.value(),
                        );
                    }
                    h.push_flow(m, &moved);
                    proof {
                        assert(h@.arcs =~= arcs_with(
                            old_arcs,
                            u as int,
                            v as int,
                            moved.value(),
                            total.value(),
                            cost.value(),
                        ));
                    }
                },
                DotStmt::Other => {},
            }
            i = i + 1;
        }
        Some(h)
    }

    /// The arc that an edge statement reads as when there are `n` vertices
    /// and `m` arcs: its ends and the numbers of its label.
    fn read_arc(from: &DotEnd, to: &DotEnd, attrs: &Vec<(String, String)>, n: usize, m: usize) -> (r:
        Option<(usize, usize, T, T, E)>)
        ensures
            match r {
                Some((u, v, x, y, z)) => reads_arc(
                    (StmtModel::Edge { from: from@, to: to@, attrs: attrs_view(attrs@) }),
                    n as int,
                    m as int,
                    u,
                    v,
                    x,
                    y,
                    z,
                ),
                None => forall|u: usize, v: usize, x: T, y: T, z: E|
                    !#[trigger] reads_arc(
                        (StmtModel::Edge { from: from@, to: to@, attrs: attrs_view(attrs@) }),
                        n as int,
                        m as int,
                        u,
                        v,
                        x,
                        y,
                        z,
                    ),
            },
    {
        let nothing = T::zero();
        if attrs.len() == 0 {
            return None;
        }
        let u = match Self::vertex_of(from) {
            Some(u) => u,
            None => {
                return None;
            },
        };
        let v = match Self::vertex_of(to) {
            Some(v) => v,
            None => {
                return None;
            },
        };
        let value = attrs[0].1.as_str();
        let bytes = value.as_bytes();
        proof {
            assert(attrs_view(attrs@)[0].1 == value@);
            encode_utf8_decode_utf8(value@);
            assert forall|x: T, y: T, z: E|
                value@ == #[trigger] plain_chars(
                    label_text(x.value(), y.value(), z.value()),
                ) implies bytes@ == label_text(x.value(), y.value(), z.value()) by {
                lemma_label_plain(x.value(), y.value(), z.value());
                lemma_plain(label_text(x.value(), y.value(), z.value()));
            }
            assert forall|u2: usize, v2: usize, x: T, y: T, z: E| #[trigger]
                reads_arc(
                    (StmtModel::Edge { from: from@, to: to@, attrs: attrs_view(attrs@) }),
                    n as int,
                    m as int,
                    u2,
                    v2,
                    x,
                    y,
                    z,
                ) implies u2 == u && v2 == v by {
                lemma_text_unique(u as int, u2 as int);
                lemma_text_unique(v as int, v2 as int);
            }
        }
        let (moved, total, cost) = match parse_edge_label::<T, E>(bytes) {
            Some(numbers) => numbers,
            None => {
                return None;
            },
        };
        proof {
            lemma_label_plain(moved.value(), total.value(), cost.value());
            lemma_plain(label_text(moved.value(), total.value(), cost.value()));
            assert forall|u2: usize, v2: usize, x: T, y: T, z: E| #[trigger]
                reads_arc(
                    (StmtModel::Edge { from: from@, to: to@, attrs: attrs_view(attrs@) }),
                    n as int,
                    m as int,
                    u2,
                    v2,
                    x,
                    y,
                    z,
                ) implies x.value() == moved.value() && y.value() == total.value() by {
                lemma_label_unique(
                    x.value(),
                    y.value(),
                    z.value(),
                    moved.value(),
                    total.value(),
                    cost.value(),
                );
            }
        }
        if u == v || u >= n || v >= n || usize::MAX - m < 2 {
            return None;
        }
        if moved.less(&nothing) || total.less(&moved) {
            return None;
        }
        Some((u, v, moved, total, cost))
    }

    /// What the first `k` statements of the dot graph of this graph describe.
    pub open spec fn described(&self, k: int) -> Built {
        let n = self@.n();
        Built {
            n: if k <= n {
                k
            } else {
                n
            },
            arcs: if k <= n {
                Seq::empty()
            } else {
                self@.arcs.take(2 * (k - n))
            },
            texts: Seq::new(
                (if k <= n {
                    k
                } else {
                    n
                }) as nat,
                |i: int| self.labels()[i].text(),
            ),
        }
    }

    /// The first `k` statements of the dot graph of a graph in which no
    /// arc leads from a vertex to itself describe the first vertices of
    /// the graph, and then its first arcs.
    pub proof fn lemma_dot_prefix(&self, name: Seq<char>, k: int)
        requires
            self.wf(),
            forall|e: int| 0 <= e < self@.m() ==> (#[trigger] self@.arcs[e]).from != self@.arcs[e].to,
            0 <= k <= self@.n() + self@.m() / 2,
        ensures
            built::<L, T, E>(self.dot_model(name).stmts, k) == Some(self.described(k)),
        decreases k,
    {
        let net = self@;
        let n = net.n();
        let limit = T::max_value();
        let stmts = self.dot_model(name).stmts;
        if k == 0 {
            assert(self.described(0).texts =~= Seq::<Seq<char>>::empty());
            assert(self.described(0).arcs =~= Seq::<Arc>::empty());
        } else {
            self.lemma_dot_prefix(name, k - 1);
            let before = self.described(k - 1);
            let after = self.described(k);
            let stmt = stmts[k - 1];
            if k <= n {
                let label = self.labels()[k - 1];
                assert(stmt == node_stmt(k - 1, label.text()));
                assert(label.text() == stmt->Node_attrs[0].1);
                assert(after.texts =~= before.texts.push(label.text()));
                assert(after.arcs =~= before.arcs);
                assert(built::<L, T, E>(stmts, k) == built_step::<L, T, E>(Some(before), stmt));
            } else {
                let j = k - 1 - n;
                let e = 2 * j;
                assert(stmt == edge_stmt(net, e));
                assert(net.arc_ok(e, limit));
                assert(mate(e) == e + 1);
                assert(net.arc_ok(e + 1, limit));
                let a = net.arcs[e];
                let back = net.arcs[e + 1];
                let u = a.from as usize;
                let v = a.to as usize;
                let x = self.edges@[e + 1].weight;
                let z = self.edges@[e].cost;
                x.lemma_bounds();
                T::lemma_every(a.cap + back.cap);
                let y = choose|y: T| #[trigger] y.value() == a.cap + back.cap;
                let old_arcs = net.arcs.take(e);
                assert(before.arcs =~= old_arcs);
                assert(reads_arc(stmt, before.n, before.arcs.len() as int, u, v, x, y, z));
                let (u2, v2, x2, y2, z2) = choose|u2: usize, v2: usize, x2: T, y2: T, z2: E|
                    reads_arc(stmt, before.n, before.arcs.len() as int, u2, v2, x2, y2, z2);
                lemma_reads_unique(
                    stmt,
                    before.n,
                    before.arcs.len() as int,
                    u,
                    v,
                    x,
                    y,
                    z,
                    u2,
                    v2,
                    x2,
                    y2,
                    z2,
                );
                let got = arcs_with(old_arcs, a.from, a.to, back.cap, a.cap + back.cap, a.cost);
                crate::network::laws::lemma_last_from_same(net.arcs, old_arcs, a.from, e);
                crate::network::laws::lemma_last_from_same(net.arcs, old_arcs, a.to, e);
                assert(last_from(net.arcs, a.to, e + 1) == last_from(net.arcs, a.to, e));
                assert(got =~= net.arcs.take(e + 2));
                assert(after.arcs =~= net.arcs.take(e + 2));
                assert(after.texts =~= before.texts);
                assert(built::<L, T, E>(stmts, k) == built_step::<L, T, E>(Some(before), stmt));
            }
        }
    }

    /// Round trip: the dot graph of a graph in which no arc leads from a
    /// vertex to itself describes the network of the graph, with the texts
    /// of its labels.
    pub proof fn lemma_dot_round_trip(&self, name: Seq<char>)
        requires
            self.wf(),
            forall|e: int| 0 <= e < self@.m() ==> (#[trigger] self@.arcs[e]).from != self@.arcs[e].to,
        ensures
            built::<L, T, E>(
                self.dot_model(name).stmts,
                self.dot_model(name).stmts.len() as int,
            ) matches Some(b) && b.n == self@.n() && b.arcs == self@.arcs && b.texts.len()
                == self@.n() && forall|i: int|
                0 <= i < self@.n() ==> #[trigger] b.texts[i] == self.labels()[i].text(),
    {
        let k = self@.n() + self@.m() / 2;
        self.lemma_dot_prefix(name, k);
        assert(self@.arcs.take(self@.m()) =~= self@.arcs);
    }

    /// The vertex that an end of an edge statement names.
    fn vertex_of(end: &DotEnd) -> (r: Option<usize>)
        ensures
            match r {
                Some(u) => end@ == EndModel::Node(u.text()),
                None => forall|u: usize| end@ != EndModel::Node(#[trigger] u.text()),
            },
    {
        match end {
            DotEnd::Node(id) => <usize as StrIO>::try_from_str(id.as_str()),
            DotEnd::Other => None,
        }
    }
}

/// Where the first statements describe nothing, all of them describe nothing.
pub proof fn lemma_built_none<L: StrIO, T: Scalar, E: Scalar>(stmts: Seq<StmtModel>, j: int, k: int)
    requires
        0 <= j <= k,
        built::<L, T, E>(stmts, j) is None,
    ensures
        built::<L, T, E>(stmts, k) is None,
    decreases k - j,
{
    if j < k {
        lemma_built_none::<L, T, E>(stmts, j, k - 1);
    }
}

} // verus!
