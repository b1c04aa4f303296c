//! Reading a case from its text.
use crate::case::{
    preserve_entry_signatures_from_index, signatures_at, CaseModel, GraphCase,
    EXTERNAL_DEFAULT_LOCAL_VARIANTS, MAX_NODES,
};
use crate::case_spec::{
    complain, complaint, decode_edge_list, decode_external_spec, decode_flag, decode_node_list,
    decode_triplet_list, edges_read, external_read, flag_read, nodes_read, triplets_read, u8_read,
    usize_read,
};
use crate::generate::entries_among;
use crate::order::{
    deduplicated, has_pair, rank, remove_repeated_pairs, remove_repeats, sort_ranked, sorted,
};
use crate::text::{
    decimal, decimal_text, parse_u8, parse_usize, same_text, split, split_at_first, split_text,
    split_text_once, texts,
};
use vstd::prelude::*;

verus! {

// ---------------------------------------------------------------------------
// Tidying what was read
// ---------------------------------------------------------------------------

/// The nodes among `n` that a list names, in order and each once.
pub open spec fn node_set(nodes: Seq<usize>, n: usize) -> Seq<usize> {
    deduplicated(sorted(nodes.filter(|i: usize| i < n), rank::<usize>()))
}

/// The edges of a list that join two different ones of `n` nodes, in order.
pub open spec fn edges_among(edges: Seq<(usize, usize)>, n: usize) -> Seq<(usize, usize)> {
    sorted(
        edges.filter(|e: (usize, usize)| e.0 < n && e.1 < n && e.0 != e.1),
        rank::<(usize, usize)>(),
    )
}

/// The edges of a list that lead from one of `n` nodes to one of `m` external
/// modules, in order.
pub open spec fn external_edges_among(
    edges: Seq<(usize, usize)>,
    n: usize,
    m: usize,
) -> Seq<(usize, usize)> {
    sorted(edges.filter(|e: (usize, usize)| e.0 < n && e.1 < m), rank::<(usize, usize)>())
}

/// Whether a triplet of the list joins the given node and external module.
pub open spec fn joins(triplets: Seq<(usize, usize, u8)>, from: usize, ext: usize) -> bool {
    exists|i: int|
        0 <= i < triplets.len() && (#[trigger] triplets[i]).0 == from && triplets[i].1 == ext
}

/// The triplets but for those that join what an earlier one joins.
pub open spec fn first_of_each(triplets: Seq<(usize, usize, u8)>) -> Seq<(usize, usize, u8)>
    decreases triplets.len(),
{
    if triplets.len() == 0 {
        triplets
    } else {
        let front = first_of_each(triplets.drop_last());
        let last = triplets.last();
        if joins(front, last.0, last.1) {
            front
        } else {
            front.push(last)
        }
    }
}

/// The triplets of a list that join one of `n` nodes and one of `m` external
/// modules under a name there is, the first for each such pair, in order.
pub open spec fn defaults_among(
    triplets: Seq<(usize, usize, u8)>,
    n: usize,
    m: usize,
) -> Seq<(usize, usize, u8)> {
    sorted(
        first_of_each(
            triplets.filter(
                |t: (usize, usize, u8)|
                    t.0 < n && t.1 < m && t.2 < EXTERNAL_DEFAULT_LOCAL_VARIANTS,
            ),
        ),
        rank::<(usize, usize, u8)>(),
    )
}

/// Keeps the nodes below `node_count`.
fn nodes_below(nodes: &Vec<usize>, node_count: usize) -> (kept: Vec<usize>)
    ensures
        kept@ == nodes@.filter(|i: usize| i < node_count),
{
    let ghost keep = |i: usize| i < node_count;
    let mut kept: Vec<usize> = Vec::new();
    proof {
        reveal(Seq::filter);
    }
    for i in 0..nodes.len()
        invariant
            keep == (|i: usize| i < node_count),
            kept@ == nodes@.take(i as int).filter(keep),
    {
        proof {
            reveal(Seq::filter);
        }
        assert(nodes@.take(i + 1).drop_last() == nodes@.take(i as int));
        if nodes[i] < node_count {
            kept.push(nodes[i]);
        }
    }
    assert(nodes@.take(nodes@.len() as int) == nodes@);
    kept
}

/// The entries among the nodes, in order and each once: the one that the seed
/// falls on if none is left, and all but the last if every node is.
pub fn normalize_entry_nodes(entries: Vec<usize>, node_count: usize, seed: u64) -> (result: Vec<
    usize,
>)
    requires
        node_count > 0,
    ensures
        result@ == entries_among(node_set(entries@, node_count), node_count, seed),
{
    let mut result = normalize_node_set(entries, node_count);
    if result.is_empty() {
        result.push((seed as usize) % node_count);
    } else if result.len() == node_count && node_count > 1 {
        result.pop();
    }
    result
}

pub fn normalize_node_set(nodes: Vec<usize>, node_count: usize) -> (result: Vec<usize>)
    ensures
        result@ == node_set(nodes@, node_count),
{
    let kept = nodes_below(&nodes, node_count);
    remove_repeats(&sort_ranked(kept))
}

pub fn normalize_edges(edges: Vec<(usize, usize)>, node_count: usize) -> (result: Vec<
    (usize, usize),
>)
    ensures
        result@ == deduplicated(edges_among(edges@, node_count)),
{
    remove_repeated_pairs(&normalize_edges_allow_dupes(edges, node_count))
}

pub fn normalize_edges_allow_dupes(
    edges: Vec<(usize, usize)>,
    node_count: usize,
) -> (result: Vec<(usize, usize)>)
    ensures
        result@ == edges_among(edges@, node_count),
{
    let ghost keep = |e: (usize, usize)| e.0 < node_count && e.1 < node_count && e.0 != e.1;
    let mut kept: Vec<(usize, usize)> = Vec::new();
    proof {
        reveal(Seq::filter);
    }
    for i in 0..edges.len()
        invariant
            keep == (|e: (usize, usize)| e.0 < node_count && e.1 < node_count && e.0 != e.1),
            kept@ == edges@.take(i as int).filter(keep),
    {
        proof {
            reveal(Seq::filter);
        }
        assert(edges@.take(i + 1).drop_last() == edges@.take(i as int));
        if edges[i].0 < node_count && edges[i].1 < node_count && edges[i].0 != edges[i].1 {
            kept.push(edges[i]);
        }
    }
    assert(edges@.take(edges@.len() as int) == edges@);
    sort_ranked(kept)
}

/// The edges from nodes to external modules that the case has, in order.
pub fn normalize_external_edges(
    edges: Vec<(usize, usize)>,
    node_count: usize,
    external_module_count: usize,
) -> (result: Vec<(usize, usize)>)
    ensures
        result@ == external_edges_among(edges@, node_count, external_module_count),
{
    let ghost keep = |e: (usize, usize)| e.0 < node_count && e.1 < external_module_count;
    let mut kept: Vec<(usize, usize)> = Vec::new();
    proof {
        reveal(Seq::filter);
    }
    for i in 0..edges.len()
        invariant
            keep == (|e: (usize, usize)| e.0 < node_count && e.1 < external_module_count),
            kept@ == edges@.take(i as int).filter(keep),
    {
        proof {
            reveal(Seq::filter);
        }
        assert(edges@.take(i + 1).drop_last() == edges@.take(i as int));
        if edges[i].0 < node_count && edges[i].1 < external_module_count {
            kept.push(edges[i]);
        }
    }
    assert(edges@.take(edges@.len() as int) == edges@);
    sort_ranked(kept)
}

fn has_join(triplets: &Vec<(usize, usize, u8)>, from: usize, ext: usize) -> (found: bool)
    ensures
        found == joins(triplets@, from, ext),
{
    for i in 0..triplets.len()
        invariant
            forall|j: int|
                0 <= j < i ==> !((#[trigger] triplets@[j]).0 == from && triplets@[j].1 == ext),
    {
        if triplets[i].0 == from && triplets[i].1 == ext {
            return true;
        }
    }
    false
}

/// The default imports from external modules that the case has, one for each
/// node and external module, in order.
pub fn normalize_default_edges(
    triplets: Vec<(usize, usize, u8)>,
    node_count: usize,
    external_module_count: usize,
) -> (result: Vec<(usize, usize, u8)>)
    ensures
        result@ == defaults_among(triplets@, node_count, external_module_count),
{
    let ghost keep = |t: (usize, usize, u8)|
        t.0 < node_count && t.1 < external_module_count && t.2 < EXTERNAL_DEFAULT_LOCAL_VARIANTS;
    let mut kept: Vec<(usize, usize, u8)> = Vec::new();
    proof {
        reveal(Seq::filter);
    }
    for i in 0..triplets.len()
        invariant
            keep == (|t: (usize, usize, u8)|
                t.0 < node_count && t.1 < external_module_count && t.2
                    < EXTERNAL_DEFAULT_LOCAL_VARIANTS),
            kept@ == first_of_each(triplets@.take(i as int).filter(keep)),
    {
        proof {
            reveal(Seq::filter);
        }
        let ghost before = triplets@.take(i as int).filter(keep);
        let ghost t = triplets@[i as int];
        assert(triplets@.take(i + 1).drop_last() == triplets@.take(i as int));
        assert(before.push(t).drop_last() == before);
        let (from, ext, variant) = triplets[i];
        if from < node_count && ext < external_module_count && variant
            < EXTERNAL_DEFAULT_LOCAL_VARIANTS {
            if !has_join(&kept, from, ext) {
                kept.push((from, ext, variant));
            }
        }
    }
    assert(triplets@.take(triplets@.len() as int) == triplets@);
    sort_ranked(kept)
}

/// Keeps the edges that are also in another list.
fn edges_in(edges: &Vec<(usize, usize)>, others: &Vec<(usize, usize)>) -> (kept: Vec<
    (usize, usize),
>)
    ensures
        kept@ == edges@.filter(|e: (usize, usize)| others@.contains(e)),
{
    let ghost keep = |e: (usize, usize)| others@.contains(e);
    let mut kept: Vec<(usize, usize)> = Vec::new();
    proof {
        reveal(Seq::filter);
    }
    for i in 0..edges.len()
        invariant
            keep == (|e: (usize, usize)| others@.contains(e)),
            kept@ == edges@.take(i as int).filter(keep),
    {
        proof {
            reveal(Seq::filter);
        }
        assert(edges@.take(i + 1).drop_last() == edges@.take(i as int));
        if has_pair(others, edges[i].0, edges[i].1) {
            kept.push(edges[i]);
        }
    }
    assert(edges@.take(edges@.len() as int) == edges@);
    kept
}

// ---------------------------------------------------------------------------
// The fields of a case spec
// ---------------------------------------------------------------------------

/// What the fields of a case spec say, as far as they are given.
#[verifier::ext_equal]
pub struct FieldsModel {
    pub node_count: Option<usize>,
    pub entries: Option<Seq<usize>>,
    pub cjs_nodes: Option<Seq<usize>>,
    pub static_edges: Option<Seq<(usize, usize)>>,
    pub dynamic_edges: Option<Seq<(usize, usize)>>,
    pub reexport_edges: Option<Seq<(usize, usize)>>,
    pub external: Option<(usize, Seq<(usize, usize)>)>,
    pub default_edges: Option<Seq<(usize, usize, u8)>>,
    pub preserve_index: Option<u8>,
    pub strict_execution_order: Option<bool>,
    pub treeshake: Option<bool>,
    pub minify_internal_exports: Option<bool>,
}

/// No field given.
pub open spec fn no_fields() -> FieldsModel {
    FieldsModel {
        node_count: None,
        entries: None,
        cjs_nodes: None,
        static_edges: None,
        dynamic_edges: None,
        reexport_edges: None,
        external: None,
        default_edges: None,
        preserve_index: None,
        strict_execution_order: None,
        treeshake: None,
        minify_internal_exports: None,
    }
}

/// The fields after one more `key=value`; a field that is given again takes
/// the new value.
pub open spec fn field_read(
    fields: FieldsModel,
    key: Seq<char>,
    value: Seq<char>,
) -> Result<FieldsModel, Seq<char>> {
    if key == "n"@ {
        match usize_read(value, complaint("invalid node count"@, value)) {
            Ok(n) => Ok(FieldsModel { node_count: Some(n), ..fields }),
            Err(e) => Err(e),
        }
    } else if key == "e"@ {
        match nodes_read(value) {
            Ok(v) => Ok(FieldsModel { entries: Some(v), ..fields }),
            Err(e) => Err(e),
        }
    } else if key == "c"@ {
        match nodes_read(value) {
            Ok(v) => Ok(FieldsModel { cjs_nodes: Some(v), ..fields }),
            Err(e) => Err(e),
        }
    } else if key == "s"@ {
        match edges_read(value) {
            Ok(v) => Ok(FieldsModel { static_edges: Some(v), ..fields }),
            Err(e) => Err(e),
        }
    } else if key == "d"@ {
        match edges_read(value) {
            Ok(v) => Ok(FieldsModel { dynamic_edges: Some(v), ..fields }),
            Err(e) => Err(e),
        }
    } else if key == "r"@ {
        match edges_read(value) {
            Ok(v) => Ok(FieldsModel { reexport_edges: Some(v), ..fields }),
            Err(e) => Err(e),
        }
    } else if key == "x"@ {
        match external_read(value) {
            Ok(v) => Ok(FieldsModel { external: Some(v), ..fields }),
            Err(e) => Err(e),
        }
    } else if key == "xs"@ {
        match triplets_read(value) {
            Ok(v) => Ok(FieldsModel { default_edges: Some(v), ..fields }),
            Err(e) => Err(e),
        }
    } else if key == "p"@ {
        match u8_read(value, complaint("invalid preserveEntrySignatures index"@, value)) {
            Ok(v) => Ok(FieldsModel { preserve_index: Some(v), ..fields }),
            Err(e) => Err(e),
        }
    } else if key == "o"@ {
        match flag_read(value, "invalid strictExecutionOrder"@) {
            Ok(v) => Ok(FieldsModel { strict_execution_order: Some(v), ..fields }),
            Err(e) => Err(e),
        }
    } else if key == "t"@ {
        match flag_read(value, "invalid treeshake"@) {
            Ok(v) => Ok(FieldsModel { treeshake: Some(v), ..fields }),
            Err(e) => Err(e),
        }
    } else if key == "m"@ {
        match flag_read(value, "invalid minifyInternalExports"@) {
            Ok(v) => Ok(FieldsModel { minify_internal_exports: Some(v), ..fields }),
            Err(e) => Err(e),
        }
    } else {
        Err(complaint("unknown case key"@, key))
    }
}

/// The fields after one more segment; an empty segment says nothing.
pub open spec fn segment_read(fields: FieldsModel, segment: Seq<char>) -> Result<
    FieldsModel,
    Seq<char>,
> {
    if segment.len() == 0 {
        Ok(fields)
    } else {
        match split_at_first(segment, '=') {
            None => Err(complaint("invalid case segment"@, segment)),
            Some((key, value)) => field_read(fields, key, value),
        }
    }
}

/// The fields after all segments, or the first complaint.
pub open spec fn segments_read(segments: Seq<Seq<char>>) -> Result<FieldsModel, Seq<char>>
    decreases segments.len(),
{
    if segments.len() == 0 {
        Ok(no_fields())
    } else {
        match segments_read(segments.drop_last()) {
            Err(e) => Err(e),
            Ok(fields) => segment_read(fields, segments.last()),
        }
    }
}

/// The case that the fields describe; a field that has to be there and is
/// not is complained about, in this order.
pub open spec fn case_of_fields(seed: u64, fields: FieldsModel) -> Result<CaseModel, Seq<char>> {
    if fields.node_count is None {
        Err("missing case field `n`"@)
    } else if !(1 <= fields.node_count->0 <= MAX_NODES) {
        Err(
            "node count `"@ + decimal(fields.node_count->0 as nat) + "` is outside 1..="@ + decimal(
                MAX_NODES as nat,
            ),
        )
    } else if fields.entries is None {
        Err("missing case field `e`"@)
    } else if fields.static_edges is None {
        Err("missing case field `s`"@)
    } else if fields.dynamic_edges is None {
        Err("missing case field `d`"@)
    } else if fields.reexport_edges is None {
        Err("missing case field `r`"@)
    } else if fields.preserve_index is None {
        Err("missing case field `p`"@)
    } else if fields.strict_execution_order is None {
        Err("missing case field `o`"@)
    } else {
        Ok(tidied_case(seed, fields))
    }
}

/// The case that the fields describe when none is missing that has to be there.
pub open spec fn tidied_case(seed: u64, fields: FieldsModel) -> CaseModel {
    let n = fields.node_count->0;
    let (m, outside) = match fields.external {
        Some(given) => given,
        None => (0usize, Seq::empty()),
    };
    let cjs = match fields.cjs_nodes {
        Some(nodes) => nodes,
        None => Seq::empty(),
    };
    let defaults = match fields.default_edges {
        Some(triplets) => triplets,
        None => Seq::empty(),
    };
    let static_edges = deduplicated(edges_among(fields.static_edges->0, n));
    CaseModel {
        seed,
        node_count: n,
        entry_nodes: entries_among(node_set(fields.entries->0, n), n, seed),
        cjs_nodes: node_set(cjs, n),
        static_edges,
        dynamic_edges: edges_among(fields.dynamic_edges->0, n),
        reexport_static_edges: deduplicated(edges_among(fields.reexport_edges->0, n)).filter(
            |e: (usize, usize)| static_edges.contains(e),
        ),
        external_module_count: m,
        external_dynamic_edges: external_edges_among(outside, n, m),
        external_static_default_edges: defaults_among(defaults, n, m),
        preserve_entry_signatures: signatures_at(fields.preserve_index->0 as int),
        strict_execution_order: fields.strict_execution_order->0,
        treeshake: fields.treeshake == Some(true),
        minify_internal_exports: fields.minify_internal_exports != Some(false),
    }
}

/// The case that a case spec describes.
pub open spec fn case_read(seed: u64, case_spec: Seq<char>) -> Result<CaseModel, Seq<char>> {
    match segments_read(split(case_spec, ';')) {
        Err(e) => Err(e),
        Ok(fields) => case_of_fields(seed, fields),
    }
}

struct Fields {
    node_count: Option<usize>,
    entries: Option<Vec<usize>>,
    cjs_nodes: Option<Vec<usize>>,
    static_edges: Option<Vec<(usize, usize)>>,
    dynamic_edges: Option<Vec<(usize, usize)>>,
    reexport_edges: Option<Vec<(usize, usize)>>,
    external: Option<(usize, Vec<(usize, usize)>)>,
    default_edges: Option<Vec<(usize, usize, u8)>>,
    preserve_index: Option<u8>,
    strict_execution_order: Option<bool>,
    treeshake: Option<bool>,
    minify_internal_exports: Option<bool>,
}

spec fn given<T>(list: Option<Vec<T>>) -> Option<Seq<T>> {
    match list {
        Some(v) => Some(v@),
        None => None,
    }
}

impl View for Fields {
    type V = FieldsModel;

    closed spec fn view(&self) -> FieldsModel {
        FieldsModel {
            node_count: self.node_count,
            entries: given(self.entries),
            cjs_nodes: given(self.cjs_nodes),
            static_edges: given(self.static_edges),
            dynamic_edges: given(self.dynamic_edges),
            reexport_edges: given(self.reexport_edges),
            external: match self.external {
                Some((n, v)) => Some((n, v@)),
                None => None,
            },
            default_edges: given(self.default_edges),
            preserve_index: self.preserve_index,
            strict_execution_order: self.strict_execution_order,
            treeshake: self.treeshake,
            minify_internal_exports: self.minify_internal_exports,
        }
    }
}

impl Fields {
    /// Takes in one `key=value`.
    fn read_field(self, key: &str, value: &str) -> (result: Result<Fields, String>)
        ensures
            match result {
                Ok(f) => field_read(self@, key@, value@) == Ok::<FieldsModel, Seq<char>>(f@),
                Err(e) => field_read(self@, key@, value@) == Err::<FieldsModel, Seq<char>>(e@),
            },
    {
        let mut fields = self;
        if same_text(key, "n") {
            match parse_usize(value) {
                Some(n) => {
                    fields.node_count = Some(n);
                },
                None => {
                    return Err(complain("invalid node count", value));
                },
            }
        } else if same_text(key, "e") {
            match decode_node_list(value) {
                Ok(v) => {
                    fields.entries = Some(v);
                },
                Err(e) => {
                    return Err(e);
                },
            }
        } else if same_text(key, "c") {
            match decode_node_list(value) {
                Ok(v) => {
                    fields.cjs_nodes = Some(v);
                },
                Err(e) => {
                    return Err(e);
                },
            }
        } else if same_text(key, "s") {
            match decode_edge_list(value) {
                Ok(v) => {
                    fields.static_edges = Some(v);
                },
                Err(e) => {
                    return Err(e);
                },
            }
        } else if same_text(key, "d") {
            match decode_edge_list(value) {
                Ok(v) => {
                    fields.dynamic_edges = Some(v);
                },
                Err(e) => {
                    return Err(e);
                },
            }
        } else if same_text(key, "r") {
            match decode_edge_list(value) {
                Ok(v) => {
                    fields.reexport_edges = Some(v);
                },
                Err(e) => {
                    return Err(e);
                },
            }
        } else if same_text(key, "x") {
            match decode_external_spec(value) {
                Ok(v) => {
                    fields.external = Some(v);
                },
                Err(e) => {
                    return Err(e);
                },
            }
        } else if same_text(key, "xs") {
            match decode_triplet_list(value) {
                Ok(v) => {
                    fields.default_edges = Some(v);
                },
                Err(e) => {
                    return Err(e);
                },
            }
        } else if same_text(key, "p") {
            match parse_u8(value) {
                Some(v) => {
                    fields.preserve_index = Some(v);
                },
                None => {
                    return Err(complain("invalid preserveEntrySignatures index", value));
                },
            }
        } else if same_text(key, "o") {
            match decode_flag(value, "invalid strictExecutionOrder") {
                Ok(v) => {
                    fields.strict_execution_order = Some(v);
                },
                Err(e) => {
                    return Err(e);
                },
            }
        } else if same_text(key, "t") {
            match decode_flag(value, "invalid treeshake") {
                Ok(v) => {
                    fields.treeshake = Some(v);
                },
                Err(e) => {
                    return Err(e);
                },
            }
        } else if same_text(key, "m") {
            match decode_flag(value, "invalid minifyInternalExports") {
                Ok(v) => {
                    fields.minify_internal_exports = Some(v);
                },
                Err(e) => {
                    return Err(e);
                },
            }
        } else {
            return Err(complain("unknown case key", key));
        }
        Ok(fields)
    }

    /// Takes in one segment.
    fn read_segment(self, segment: &str) -> (result: Result<Fields, String>)
        ensures
            match result {
                Ok(f) => segment_read(self@, segment@) == Ok::<FieldsModel, Seq<char>>(f@),
                Err(e) => segment_read(self@, segment@) == Err::<FieldsModel, Seq<char>>(e@),
            },
    {
        if segment.is_empty() {
            return Ok(self);
        }
        match split_text_once(segment, '=') {
            None => Err(complain("invalid case segment", segment)),
            Some((key, value)) => self.read_field(key.as_str(), value.as_str()),
        }
    }

    /// Makes the case that the fields describe.
    fn into_case(self, seed: u64) -> (result: Result<GraphCase, String>)
        ensures
            match result {
                Ok(case) => case_of_fields(seed, self@) == Ok::<CaseModel, Seq<char>>(case@),
                Err(e) => case_of_fields(seed, self@) == Err::<CaseModel, Seq<char>>(e@),
            },
    {
        let node_count: usize = match self.node_count {
            Some(n) => n,
            None => {
                return Err("missing case field `n`".to_owned());
            },
        };
        if !(1 <= node_count && node_count <= MAX_NODES) {
            let mut message = "node count `".to_owned();
            message.append(decimal_text(node_count as u128).as_str());
            message.append("` is outside 1..=");
            message.append(decimal_text(MAX_NODES as u128).as_str());
            return Err(message);
        }
        let entry_nodes = match self.entries {
            Some(v) => normalize_entry_nodes(v, node_count, seed),
            None => {
                return Err("missing case field `e`".to_owned());
            },
        };
        let cjs_nodes = normalize_node_set(
            match self.cjs_nodes {
                Some(v) => v,
                None => Vec::new(),
            },
            node_count,
        );
        let static_edges = match self.static_edges {
            Some(v) => normalize_edges(v, node_count),
            None => {
                return Err("missing case field `s`".to_owned());
            },
        };
        let dynamic_edges = match self.dynamic_edges {
            Some(v) => normalize_edges_allow_dupes(v, node_count),
            None => {
                return Err("missing case field `d`".to_owned());
            },
        };
        let (external_module_count, outside) = match self.external {
            Some(given) => given,
            None => (0usize, Vec::new()),
        };
        let external_dynamic_edges = normalize_external_edges(
            outside,
            node_count,
            external_module_count,
        );
        let external_static_default_edges = normalize_default_edges(
            match self.default_edges {
                Some(v) => v,
                None => Vec::new(),
            },
            node_count,
            external_module_count,
        );
        let reexport_static_edges = match self.reexport_edges {
            Some(v) => edges_in(&normalize_edges(v, node_count), &static_edges),
            None => {
                return Err("missing case field `r`".to_owned());
            },
        };
        let preserve_entry_signatures = match self.preserve_index {
            Some(i) => preserve_entry_signatures_from_index(i),
            None => {
                return Err("missing case field `p`".to_owned());
            },
        };
        let strict_execution_order = match self.strict_execution_order {
            Some(b) => b,
            None => {
                return Err("missing case field `o`".to_owned());
            },
        };
        let treeshake = match self.treeshake {
            Some(b) => b,
            None => false,
        };
        let minify_internal_exports = match self.minify_internal_exports {
            Some(b) => b,
            None => true,
        };
        Ok(
            GraphCase {
                seed,
                node_count,
                entry_nodes,
                cjs_nodes,
                static_edges,
                dynamic_edges,
                reexport_static_edges,
                external_module_count,
                external_dynamic_edges,
                external_static_default_edges,
                preserve_entry_signatures,
                strict_execution_order,
                treeshake,
                minify_internal_exports,
            },
        )
    }
}

proof fn lemma_segment_complaint_stays(segments: Seq<Seq<char>>, i: int)
    requires
        0 <= i <= segments.len(),
        segments_read(segments.take(i)) is Err,
    ensures
        segments_read(segments) == segments_read(segments.take(i)),
    decreases segments.len(),
{
    if i < segments.len() {
        assert(segments.drop_last().take(i) == segments.take(i));
        lemma_segment_complaint_stays(segments.drop_last(), i);
    } else {
        assert(segments.take(i) == segments);
    }
}

/// Reads a case from a case spec. The lists are put in order, and what speaks
/// of nodes or external modules that the case does not have is left out.
pub fn parse_case_spec(seed: u64, case_spec: &str) -> (result: Result<GraphCase, String>)
    ensures
        match result {
            Ok(case) => case_read(seed, case_spec@) == Ok::<CaseModel, Seq<char>>(case@),
            Err(e) => case_read(seed, case_spec@) == Err::<CaseModel, Seq<char>>(e@),
        },
{
    let segments = split_text(case_spec, ';');
    let ghost all = texts(segments@);
    let mut fields = Fields {
        node_count: None,
        entries: None,
        cjs_nodes: None,
        static_edges: None,
        dynamic_edges: None,
        reexport_edges: None,
        external: None,
        default_edges: None,
        preserve_index: None,
        strict_execution_order: None,
        treeshake: None,
        minify_internal_exports: None,
    };
    for i in 0..segments.len()
        invariant
            all == texts(segments@),
            all == split(case_spec@, ';'),
            segments_read(all.take(i as int)) == Ok::<FieldsModel, Seq<char>>(fields@),
    {
        assert(all.take(i + 1).drop_last() == all.take(i as int));
        assert(all.take(i + 1).last() == segments@[i as int]@);
        match fields.read_segment(segments[i].as_str()) {
            Ok(f) => {
                fields = f;
            },
            Err(e) => {
                proof {
                    lemma_segment_complaint_stays(all, i + 1);
                }
                return Err(e);
            },
        }
    }
    assert(all.take(all.len() as int) == all);
    fields.into_case(seed)
}

} // verus!
