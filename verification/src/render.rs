//! The modules of a case as source text.
use crate::case::{
    external_default_local_name, external_default_name, external_module_name, external_name,
    filename, is_cjs_node, module_filename, CaseModel, GraphCase,
};
use crate::order::has_pair;
use crate::text::{decimal, decimal_text, lemma_map_take, lemma_together_push, together};
use vstd::prelude::*;

verus! {

// ---------------------------------------------------------------------------
// Names
// ---------------------------------------------------------------------------

/// `prefix`, then two numbers with an underscore between them.
pub open spec fn pair_name(prefix: Seq<char>, a: usize, b: usize) -> Seq<char> {
    prefix + decimal(a as nat) + "_"@ + decimal(b as nat)
}

/// The name under which a module exports its own value.
pub open spec fn node_name(node: usize) -> Seq<char> {
    "node_"@ + decimal(node as nat)
}

/// The name under which a module exports what it imports from another.
pub open spec fn use_name(from: usize, to: usize) -> Seq<char> {
    pair_name("use_"@, from, to)
}

/// The name under which a module reexports the value of another.
pub open spec fn reexport_name(from: usize, to: usize) -> Seq<char> {
    pair_name("reexport_"@, from, to)
}

impl CaseModel {
    /// Whether the static edge from `from` to `to` reexports: CommonJS modules
    /// are not reexported from.
    pub open spec fn reexports(self, from: usize, to: usize) -> bool {
        self.reexport_static_edges.contains((from, to)) && !self.is_cjs(to)
    }

    /// Whether every edge starts at a node of the case.
    pub open spec fn edges_start_at_nodes(self) -> bool {
        &&& all_start_below(self.static_edges, self.node_count)
        &&& all_start_below(self.dynamic_edges, self.node_count)
        &&& all_start_below(self.external_dynamic_edges, self.node_count)
        &&& all_triplets_start_below(self.external_static_default_edges, self.node_count)
    }
}

/// Whether every edge starts below `n`.
pub open spec fn all_start_below(edges: Seq<(usize, usize)>, n: usize) -> bool {
    forall|i: int| 0 <= i < edges.len() ==> (#[trigger] edges[i]).0 < n
}

/// Whether every default import starts below `n`.
pub open spec fn all_triplets_start_below(triplets: Seq<(usize, usize, u8)>, n: usize) -> bool {
    forall|i: int| 0 <= i < triplets.len() ==> (#[trigger] triplets[i]).0 < n
}

/// The edges of a case start at its nodes exactly when the first component of
/// every edge, of whatever kind, is below the number of nodes.
pub proof fn edges_start_where_they_say(case: CaseModel)
    ensures
        case.edges_start_at_nodes() <==> {
            &&& forall|i: int|
                0 <= i < case.static_edges.len() ==> (#[trigger] case.static_edges[i]).0
                    < case.node_count
            &&& forall|i: int|
                0 <= i < case.dynamic_edges.len() ==> (#[trigger] case.dynamic_edges[i]).0
                    < case.node_count
            &&& forall|i: int|
                0 <= i < case.external_dynamic_edges.len() ==> (
                #[trigger] case.external_dynamic_edges[i]).0 < case.node_count
            &&& forall|i: int|
                0 <= i < case.external_static_default_edges.len() ==> (
                #[trigger] case.external_static_default_edges[i]).0 < case.node_count
        },
{
}

/// The edges of a well-formed case start at its nodes.
pub proof fn well_formed_edges_start_at_nodes(case: CaseModel)
    requires
        case.well_formed(),
    ensures
        case.edges_start_at_nodes(),
{
}

// ---------------------------------------------------------------------------
// Lines
// ---------------------------------------------------------------------------

/// Tells the edges that start at `from`.
pub open spec fn starts_at(from: usize) -> spec_fn((usize, usize)) -> bool {
    |e: (usize, usize)| e.0 == from
}

/// Tells the default imports of `from`.
pub open spec fn imported_by(from: usize) -> spec_fn((usize, usize, u8)) -> bool {
    |t: (usize, usize, u8)| t.0 == from
}

/// The ends of the edges that start at `from`, in the order of the edges.
pub open spec fn outgoing(edges: Seq<(usize, usize)>, from: usize) -> Seq<usize> {
    edges.filter(starts_at(from)).map_values(|e: (usize, usize)| e.1)
}

/// The external modules and local names of the default imports of `from`.
pub open spec fn default_outgoing(
    triplets: Seq<(usize, usize, u8)>,
    from: usize,
) -> Seq<(usize, u8)> {
    triplets.filter(imported_by(from)).map_values(|t: (usize, usize, u8)| (t.1, t.2))
}

/// Edges are followed in their order, each as often as it occurs, and only
/// from where they start: a list after another leads to the ends of the one
/// and then to those of the other, and a single edge to its end or nowhere.
pub proof fn edges_are_followed_in_order(
    a: Seq<(usize, usize)>,
    b: Seq<(usize, usize)>,
    edge: (usize, usize),
    from: usize,
)
    ensures
        outgoing(a + b, from) == outgoing(a, from) + outgoing(b, from),
        outgoing(seq![edge], from) == (if edge.0 == from {
            seq![edge.1]
        } else {
            Seq::<usize>::empty()
        }),
    decreases b.len(),
{
    reveal(Seq::filter);
    let one = seq![edge];
    assert(one.drop_last() =~= Seq::<(usize, usize)>::empty());
    assert(one.drop_last().filter(starts_at(from)) =~= Seq::<(usize, usize)>::empty());
    assert(outgoing(one, from) =~= (if edge.0 == from {
        seq![edge.1]
    } else {
        Seq::<usize>::empty()
    }));
    if b.len() == 0 {
        assert(a + b =~= a);
        assert(outgoing(a + b, from) =~= outgoing(a, from) + outgoing(b, from));
    } else {
        let all = a + b;
        edges_are_followed_in_order(a, b.drop_last(), edge, from);
        assert(all.drop_last() =~= a + b.drop_last());
        assert(all.last() == b.last());
        lemma_outgoing_push(all.drop_last(), b.last(), from);
        lemma_outgoing_push(b.drop_last(), b.last(), from);
        assert(all.drop_last().push(b.last()) =~= all);
        assert(b.drop_last().push(b.last()) =~= b);
        assert(outgoing(all, from) =~= outgoing(a, from) + outgoing(b, from));
    }
}

proof fn lemma_outgoing_push(edges: Seq<(usize, usize)>, edge: (usize, usize), from: usize)
    ensures
        outgoing(edges.push(edge), from) == (if edge.0 == from {
            outgoing(edges, from).push(edge.1)
        } else {
            outgoing(edges, from)
        }),
{
    reveal(Seq::filter);
    assert(edges.push(edge).drop_last() =~= edges);
    assert(outgoing(edges.push(edge), from) =~= (if edge.0 == from {
        outgoing(edges, from).push(edge.1)
    } else {
        outgoing(edges, from)
    }));
}

/// What is reached from a node are the ends of the edges that start there.
pub proof fn edges_lead_to_their_ends(edges: Seq<(usize, usize)>, from: usize, to: usize)
    ensures
        outgoing(edges, from).contains(to) <==> edges.contains((from, to)),
    decreases edges.len(),
{
    reveal(Seq::filter);
    if edges.len() > 0 {
        let front = edges.drop_last();
        let last = edges.last();
        edges_lead_to_their_ends(front, from, to);
        lemma_outgoing_push(front, last, from);
        assert(front.push(last) =~= edges);
        let ends = outgoing(front, from);
        if edges.contains((from, to)) {
            let i = choose|i: int| 0 <= i < edges.len() && edges[i] == (from, to);
            if i < front.len() {
                assert(front[i] == (from, to));
                let k = choose|k: int| 0 <= k < ends.len() && ends[k] == to;
                assert(outgoing(edges, from)[k] == to);
            } else {
                assert(outgoing(edges, from).last() == to);
            }
        }
        if outgoing(edges, from).contains(to) {
            let all = outgoing(edges, from);
            let k = choose|k: int| 0 <= k < all.len() && all[k] == to;
            if k < ends.len() {
                assert(ends[k] == to);
                let i = choose|i: int| 0 <= i < front.len() && front[i] == (from, to);
                assert(edges[i] == (from, to));
            } else {
                assert(edges.last() == (from, to));
            }
        }
    } else {
        assert(outgoing(edges, from).len() == 0);
    }
}

/// Default imports are made in their order, each as often as it occurs, and
/// only by the module they belong to.
pub proof fn default_imports_are_made_in_order(
    a: Seq<(usize, usize, u8)>,
    b: Seq<(usize, usize, u8)>,
    triplet: (usize, usize, u8),
    from: usize,
)
    ensures
        default_outgoing(a + b, from) == default_outgoing(a, from) + default_outgoing(b, from),
        default_outgoing(seq![triplet], from) == (if triplet.0 == from {
            seq![(triplet.1, triplet.2)]
        } else {
            Seq::<(usize, u8)>::empty()
        }),
    decreases b.len(),
{
    reveal(Seq::filter);
    let one = seq![triplet];
    assert(one.drop_last() =~= Seq::<(usize, usize, u8)>::empty());
    assert(one.drop_last().filter(imported_by(from)) =~= Seq::<(usize, usize, u8)>::empty());
    assert(default_outgoing(one, from) =~= (if triplet.0 == from {
        seq![(triplet.1, triplet.2)]
    } else {
        Seq::<(usize, u8)>::empty()
    }));
    if b.len() == 0 {
        assert(a + b =~= a);
        assert(default_outgoing(a + b, from) =~= default_outgoing(a, from) + default_outgoing(
            b,
            from,
        ));
    } else {
        let all = a + b;
        default_imports_are_made_in_order(a, b.drop_last(), triplet, from);
        assert(all.drop_last() =~= a + b.drop_last());
        assert(all.last() == b.last());
        assert(default_outgoing(all, from) =~= default_outgoing(a, from) + default_outgoing(
            b,
            from,
        ));
    }
}

/// What every module starts with.
pub open spec fn header_text(from: usize) -> Seq<char> {
    "globalThis.__acyclic_output_fuzz_"@ + decimal(from as nat) + " = "@ + decimal(from as nat)
        + ";\n"@
}

/// A line that exports a local name.
pub open spec fn export_line(name: Seq<char>) -> Seq<char> {
    "export { "@ + name + " };\n"@
}

/// A line that exports the value of another module under a name of its own.
pub open spec fn reexport_line(to: usize, name: Seq<char>, path: Seq<char>) -> Seq<char> {
    "export { "@ + node_name(to) + " as "@ + name + " } from \"./"@ + path + "\";\n"@
}

/// How module `from` imports module `to` statically.
pub open spec fn static_import_text(case: CaseModel, from: usize, to: usize) -> Seq<char> {
    let imported = pair_name("imported_"@, from, to);
    let used = use_name(from, to);
    let path = filename(case, to);
    if case.is_cjs(from) {
        "const "@ + imported + " = require(\"./"@ + path + "\");\n"@ + "exports."@ + used + " = "@
            + imported + ";\n"@
    } else if case.reexports(from, to) {
        reexport_line(to, reexport_name(from, to), path)
    } else {
        "import * as "@ + imported + " from \"./"@ + path + "\";\n"@ + "var "@ + used + " = "@
            + imported + ";\n"@ + used + ".ref = "@ + decimal(from as nat) + ";\n"@ + export_line(
            used,
        )
    }
}

/// A line that loads `path` while a module runs.
pub open spec fn load_line(cjs: bool, path: Seq<char>) -> Seq<char> {
    (if cjs {
        "void require(\""@
    } else {
        "void import(\""@
    }) + path + "\");\n"@
}

/// How module `from` imports the default of an external module. A CommonJS
/// module has no default imports, so it takes the whole module under a name
/// that does not depend on the variant.
pub open spec fn default_import_text(
    case: CaseModel,
    from: usize,
    ext: usize,
    variant: u8,
) -> Seq<char> {
    let name = external_name(ext);
    if case.is_cjs(from) {
        let local = pair_name("dn_cjs_"@, from, ext);
        "const "@ + local + " = require(\""@ + name + "\");\n"@ + "exports."@ + pair_name(
            "use_dn_"@,
            from,
            ext,
        ) + " = "@ + local + ";\n"@
    } else {
        let local = external_default_name(ext, variant);
        "import "@ + local + " from \""@ + name + "\";\n"@ + "globalThis."@ + pair_name(
            "__use_dn_"@,
            from,
            ext,
        ) + "_"@ + decimal(variant as nat) + " = "@ + local + ";\n"@
    }
}

/// How a module exports its own value.
pub open spec fn footer_text(case: CaseModel, from: usize) -> Seq<char> {
    let name = node_name(from);
    if case.is_cjs(from) {
        "exports."@ + name + " = "@ + decimal(from as nat) + ";\n"@
    } else {
        "var "@ + name + " = {};\n"@ + name + ".value = "@ + decimal(from as nat) + ";\n"@
            + export_line(name)
    }
}

/// The static imports of a module.
pub open spec fn static_imports_text(case: CaseModel, from: usize) -> Seq<char> {
    together(
        outgoing(case.static_edges, from).map_values(
            |to: usize| static_import_text(case, from, to),
        ),
    )
}

/// The dynamic imports of a module.
pub open spec fn dynamic_imports_text(case: CaseModel, from: usize) -> Seq<char> {
    together(
        outgoing(case.dynamic_edges, from).map_values(
            |to: usize| load_line(case.is_cjs(from), "./"@ + filename(case, to)),
        ),
    )
}

/// The dynamic imports of external modules.
pub open spec fn external_imports_text(case: CaseModel, from: usize) -> Seq<char> {
    together(
        outgoing(case.external_dynamic_edges, from).map_values(
            |ext: usize| load_line(case.is_cjs(from), external_name(ext)),
        ),
    )
}

/// The default imports of external modules.
pub open spec fn default_imports_text(case: CaseModel, from: usize) -> Seq<char> {
    together(
        default_outgoing(case.external_static_default_edges, from).map_values(
            |d: (usize, u8)| default_import_text(case, from, d.0, d.1),
        ),
    )
}

/// The source of a module.
pub open spec fn source_text(case: CaseModel, from: usize) -> Seq<char> {
    header_text(from) + static_imports_text(case, from) + dynamic_imports_text(case, from)
        + external_imports_text(case, from) + default_imports_text(case, from) + footer_text(
        case,
        from,
    )
}

/// A file: its name and what it holds.
pub open spec fn file_view(file: (String, String)) -> (Seq<char>, Seq<char>) {
    (file.0@, file.1@)
}

/// Files, by their names and what they hold.
pub open spec fn file_views(files: Seq<(String, String)>) -> Seq<(Seq<char>, Seq<char>)> {
    files.map_values(|f: (String, String)| file_view(f))
}

/// The file of every node, in the order of the nodes.
pub open spec fn modules_of(case: CaseModel) -> Seq<(Seq<char>, Seq<char>)> {
    Seq::new(
        case.node_count as nat,
        |i: int| (filename(case, i as usize), source_text(case, i as usize)),
    )
}

// ---------------------------------------------------------------------------
// Rendering
// ---------------------------------------------------------------------------

impl GraphCase {
    /// Whether every edge starts at a node of the case.
    pub fn edges_start_at_nodes(&self) -> (r: bool)
        ensures
            r == self@.edges_start_at_nodes(),
    {
        starts_below(&self.static_edges, self.node_count) && starts_below(
            &self.dynamic_edges,
            self.node_count,
        ) && starts_below(&self.external_dynamic_edges, self.node_count) && triplets_start_below(
            &self.external_static_default_edges,
            self.node_count,
        )
    }
}

fn starts_below(edges: &Vec<(usize, usize)>, n: usize) -> (r: bool)
    ensures
        r == all_start_below(edges@, n),
{
    for i in 0..edges.len()
        invariant
            forall|j: int| 0 <= j < i ==> (#[trigger] edges@[j]).0 < n,
    {
        if edges[i].0 >= n {
            return false;
        }
    }
    true
}

fn triplets_start_below(triplets: &Vec<(usize, usize, u8)>, n: usize) -> (r: bool)
    ensures
        r == all_triplets_start_below(triplets@, n),
{
    for i in 0..triplets.len()
        invariant
            forall|j: int| 0 <= j < i ==> (#[trigger] triplets@[j]).0 < n,
    {
        if triplets[i].0 >= n {
            return false;
        }
    }
    true
}

/// Filtering a longer prefix looks at one element more.
proof fn lemma_filter_take<T>(s: Seq<T>, keep: spec_fn(T) -> bool, i: int)
    requires
        0 <= i < s.len(),
    ensures
        s.take(i + 1).filter(keep) == if keep(s[i]) {
            s.take(i).filter(keep).push(s[i])
        } else {
            s.take(i).filter(keep)
        },
{
    reveal(Seq::filter);
    assert(s.take(i + 1).drop_last() =~= s.take(i));
}

proof fn lemma_outgoing_take(edges: Seq<(usize, usize)>, from: usize, i: int)
    requires
        0 <= i < edges.len(),
    ensures
        outgoing(edges.take(i + 1), from) == if edges[i].0 == from {
            outgoing(edges.take(i), from).push(edges[i].1)
        } else {
            outgoing(edges.take(i), from)
        },
{
    lemma_filter_take(edges, starts_at(from), i);
    if edges[i].0 == from {
        assert(outgoing(edges.take(i + 1), from) =~= outgoing(edges.take(i), from).push(
            edges[i].1,
        ));
    }
}

proof fn lemma_default_outgoing_take(triplets: Seq<(usize, usize, u8)>, from: usize, i: int)
    requires
        0 <= i < triplets.len(),
    ensures
        default_outgoing(triplets.take(i + 1), from) == if triplets[i].0 == from {
            default_outgoing(triplets.take(i), from).push((triplets[i].1, triplets[i].2))
        } else {
            default_outgoing(triplets.take(i), from)
        },
{
    lemma_filter_take(triplets, imported_by(from), i);
    if triplets[i].0 == from {
        assert(default_outgoing(triplets.take(i + 1), from) =~= default_outgoing(
            triplets.take(i),
            from,
        ).push((triplets[i].1, triplets[i].2)));
    }
}

/// The ends of the edges that start at `from`.
pub fn outgoing_nodes(edges: &Vec<(usize, usize)>, from: usize) -> (ends: Vec<usize>)
    ensures
        ends@ == outgoing(edges@, from),
{
    let mut ends: Vec<usize> = Vec::new();
    proof {
        reveal(Seq::filter);
        assert(outgoing(edges@.take(0), from) =~= Seq::<usize>::empty());
    }
    for i in 0..edges.len()
        invariant
            ends@ == outgoing(edges@.take(i as int), from),
    {
        proof {
            lemma_outgoing_take(edges@, from, i as int);
        }
        if edges[i].0 == from {
            ends.push(edges[i].1);
        }
    }
    assert(edges@.take(edges@.len() as int) =~= edges@);
    ends
}

fn outgoing_defaults(triplets: &Vec<(usize, usize, u8)>, from: usize) -> (defaults: Vec<
    (usize, u8),
>)
    ensures
        defaults@ == default_outgoing(triplets@, from),
{
    let mut defaults: Vec<(usize, u8)> = Vec::new();
    proof {
        reveal(Seq::filter);
        assert(default_outgoing(triplets@.take(0), from) =~= Seq::<(usize, u8)>::empty());
    }
    for i in 0..triplets.len()
        invariant
            defaults@ == default_outgoing(triplets@.take(i as int), from),
    {
        proof {
            lemma_default_outgoing_take(triplets@, from, i as int);
        }
        if triplets[i].0 == from {
            defaults.push((triplets[i].1, triplets[i].2));
        }
    }
    assert(triplets@.take(triplets@.len() as int) =~= triplets@);
    defaults
}

/// Two numbers behind a prefix.
pub fn paired_name(prefix: &str, a: usize, b: usize) -> (name: String)
    ensures
        name@ == pair_name(prefix@, a, b),
        name@ == prefix@ + decimal(a as nat) + "_"@ + decimal(b as nat),
{
    let mut name = prefix.to_owned();
    name.append(decimal_text(a as u128).as_str());
    name.append("_");
    name.append(decimal_text(b as u128).as_str());
    name
}

/// The name under which a module exports its own value.
pub fn own_name(node: usize) -> (name: String)
    ensures
        name@ == node_name(node),
        name@ == "node_"@ + decimal(node as nat),
{
    let mut name = "node_".to_owned();
    name.append(decimal_text(node as u128).as_str());
    name
}

/// Whether a static edge reexports.
pub fn edge_reexports(case: &GraphCase, from: usize, to: usize) -> (r: bool)
    ensures
        r == case@.reexports(from, to),
        r <==> case.reexport_static_edges@.contains((from, to)) && !case.cjs_nodes@.contains(to),
{
    has_pair(&case.reexport_static_edges, from, to) && !is_cjs_node(case, to)
}

fn render_header(from: usize) -> (s: String)
    ensures
        s@ == header_text(from),
{
    let number = decimal_text(from as u128);
    let mut s = "globalThis.__acyclic_output_fuzz_".to_owned();
    s.append(number.as_str());
    s.append(" = ");
    s.append(number.as_str());
    s.append(";\n");
    s
}

fn render_export(name: &str) -> (s: String)
    ensures
        s@ == export_line(name@),
{
    let mut s = "export { ".to_owned();
    s.append(name);
    s.append(" };\n");
    s
}

fn render_static_import(case: &GraphCase, from: usize, to: usize) -> (s: String)
    ensures
        s@ == static_import_text(case@, from, to),
{
    let imported = paired_name("imported_", from, to);
    let used = paired_name("use_", from, to);
    let path = module_filename(case, to);
    if is_cjs_node(case, from) {
        let mut s = "const ".to_owned();
        s.append(imported.as_str());
        s.append(" = require(\"./");
        s.append(path.as_str());
        s.append("\");\n");
        s.append("exports.");
        s.append(used.as_str());
        s.append(" = ");
        s.append(imported.as_str());
        s.append(";\n");
        s
    } else if edge_reexports(case, from, to) {
        let mut s = "export { ".to_owned();
        s.append(own_name(to).as_str());
        s.append(" as ");
        s.append(paired_name("reexport_", from, to).as_str());
        s.append(" } from \"./");
        s.append(path.as_str());
        s.append("\";\n");
        s
    } else {
        let mut s = "import * as ".to_owned();
        s.append(imported.as_str());
        s.append(" from \"./");
        s.append(path.as_str());
        s.append("\";\n");
        s.append("var ");
        s.append(used.as_str());
        s.append(" = ");
        s.append(imported.as_str());
        s.append(";\n");
        s.append(used.as_str());
        s.append(".ref = ");
        s.append(decimal_text(from as u128).as_str());
        s.append(";\n");
        s.append(render_export(used.as_str()).as_str());
        s
    }
}

fn render_load(cjs: bool, path: &str) -> (s: String)
    ensures
        s@ == load_line(cjs, path@),
{
    let mut s = if cjs {
        "void require(\"".to_owned()
    } else {
        "void import(\"".to_owned()
    };
    s.append(path);
    s.append("\");\n");
    s
}

fn render_default_import(case: &GraphCase, from: usize, ext: usize, variant: u8) -> (s: String)
    ensures
        s@ == default_import_text(case@, from, ext, variant),
{
    let name = external_module_name(ext);
    if is_cjs_node(case, from) {
        let local = paired_name("dn_cjs_", from, ext);
        let mut s = "const ".to_owned();
        s.append(local.as_str());
        s.append(" = require(\"");
        s.append(name.as_str());
        s.append("\");\n");
        s.append("exports.");
        s.append(paired_name("use_dn_", from, ext).as_str());
        s.append(" = ");
        s.append(local.as_str());
        s.append(";\n");
        s
    } else {
        let local = external_default_local_name(ext, variant);
        let mut s = "import ".to_owned();
        s.append(local.as_str());
        s.append(" from \"");
        s.append(name.as_str());
        s.append("\";\n");
        s.append("globalThis.");
        s.append(paired_name("__use_dn_", from, ext).as_str());
        s.append("_");
        s.append(decimal_text(variant as u128).as_str());
        s.append(" = ");
        s.append(local.as_str());
        s.append(";\n");
        s
    }
}

fn render_footer(case: &GraphCase, from: usize) -> (s: String)
    ensures
        s@ == footer_text(case@, from),
{
    let name = own_name(from);
    let number = decimal_text(from as u128);
    if is_cjs_node(case, from) {
        let mut s = "exports.".to_owned();
        s.append(name.as_str());
        s.append(" = ");
        s.append(number.as_str());
        s.append(";\n");
        s
    } else {
        let mut s = "var ".to_owned();
        s.append(name.as_str());
        s.append(" = {};\n");
        s.append(name.as_str());
        s.append(".value = ");
        s.append(number.as_str());
        s.append(";\n");
        s.append(render_export(name.as_str()).as_str());
        s
    }
}

fn render_static_imports(case: &GraphCase, from: usize) -> (s: String)
    ensures
        s@ == static_imports_text(case@, from),
{
    let ends = outgoing_nodes(&case.static_edges, from);
    let ghost line = |to: usize| static_import_text(case@, from, to);
    let mut s = String::new();
    for i in 0..ends.len()
        invariant
            line == (|to: usize| static_import_text(case@, from, to)),
            s@ == together(ends@.take(i as int).map_values(line)),
    {
        proof {
            lemma_map_take(ends@, line, i as int);
            lemma_together_push(ends@.take(i as int).map_values(line), line(ends@[i as int]));
        }
        s.append(render_static_import(case, from, ends[i]).as_str());
    }
    assert(ends@.take(ends@.len() as int) =~= ends@);
    s
}

fn render_dynamic_imports(case: &GraphCase, from: usize) -> (s: String)
    ensures
        s@ == dynamic_imports_text(case@, from),
{
    let ends = outgoing_nodes(&case.dynamic_edges, from);
    let cjs = is_cjs_node(case, from);
    let ghost line = |to: usize| load_line(case@.is_cjs(from), "./"@ + filename(case@, to));
    let mut s = String::new();
    for i in 0..ends.len()
        invariant
            cjs == case@.is_cjs(from),
            line == (|to: usize| load_line(case@.is_cjs(from), "./"@ + filename(case@, to))),
            s@ == together(ends@.take(i as int).map_values(line)),
    {
        proof {
            lemma_map_take(ends@, line, i as int);
            lemma_together_push(ends@.take(i as int).map_values(line), line(ends@[i as int]));
        }
        let mut path = "./".to_owned();
        path.append(module_filename(case, ends[i]).as_str());
        s.append(render_load(cjs, path.as_str()).as_str());
    }
    assert(ends@.take(ends@.len() as int) =~= ends@);
    s
}

fn render_external_imports(case: &GraphCase, from: usize) -> (s: String)
    ensures
        s@ == external_imports_text(case@, from),
{
    let ends = outgoing_nodes(&case.external_dynamic_edges, from);
    let cjs = is_cjs_node(case, from);
    let ghost line = |ext: usize| load_line(case@.is_cjs(from), external_name(ext));
    let mut s = String::new();
    for i in 0..ends.len()
        invariant
            cjs == case@.is_cjs(from),
            line == (|ext: usize| load_line(case@.is_cjs(from), external_name(ext))),
            s@ == together(ends@.take(i as int).map_values(line)),
    {
        proof {
            lemma_map_take(ends@, line, i as int);
            lemma_together_push(ends@.take(i as int).map_values(line), line(ends@[i as int]));
        }
        s.append(render_load(cjs, external_module_name(ends[i]).as_str()).as_str());
    }
    assert(ends@.take(ends@.len() as int) =~= ends@);
    s
}

fn render_default_imports(case: &GraphCase, from: usize) -> (s: String)
    ensures
        s@ == default_imports_text(case@, from),
{
    let defaults = outgoing_defaults(&case.external_static_default_edges, from);
    let ghost line = |d: (usize, u8)| default_import_text(case@, from, d.0, d.1);
    let mut s = String::new();
    for i in 0..defaults.len()
        invariant
            line == (|d: (usize, u8)| default_import_text(case@, from, d.0, d.1)),
            s@ == together(defaults@.take(i as int).map_values(line)),
    {
        proof {
            lemma_map_take(defaults@, line, i as int);
            lemma_together_push(
                defaults@.take(i as int).map_values(line),
                line(defaults@[i as int]),
            );
        }
        s.append(render_default_import(case, from, defaults[i].0, defaults[i].1).as_str());
    }
    assert(defaults@.take(defaults@.len() as int) =~= defaults@);
    s
}

fn render_source(case: &GraphCase, from: usize) -> (s: String)
    ensures
        s@ == source_text(case@, from),
{
    let mut s = render_header(from);
    s.append(render_static_imports(case, from).as_str());
    s.append(render_dynamic_imports(case, from).as_str());
    s.append(render_external_imports(case, from).as_str());
    s.append(render_default_imports(case, from).as_str());
    s.append(render_footer(case, from).as_str());
    s
}

/// Renders every module of a case: the name of its file and its source.
pub fn render_graph_modules(case: &GraphCase) -> (modules: Vec<(String, String)>)
    requires
        case@.edges_start_at_nodes(),
    ensures
        file_views(modules@) == modules_of(case@),
{
    let mut modules: Vec<(String, String)> = Vec::new();
    for from in 0..case.node_count
        invariant
            file_views(modules@) == modules_of(case@).take(from as int),
    {
        let module = (module_filename(case, from), render_source(case, from));
        assert(file_views(modules@.push(module)) =~= file_views(modules@).push(file_view(module)));
        assert(modules_of(case@).take(from + 1) =~= modules_of(case@).take(from as int).push(
            modules_of(case@)[from as int],
        ));
        modules.push(module);
    }
    assert(modules_of(case@).take(case.node_count as int) =~= modules_of(case@));
    modules
}

} // verus!
