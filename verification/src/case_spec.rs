//! Case specs: a case written as text, from which it can be read back.
use crate::case::{preserve_entry_signatures_to_index, signatures_index, CaseModel, GraphCase};
use crate::text::{
    decimal, decimal_text, join_texts, joined, lemma_map_take, lemma_split_nonempty,
    lemma_texts_push, parse_u8, parse_usize, parsed_unsigned, same_text, split, split_at_first,
    split_text, split_text_once, texts,
};
use vstd::prelude::*;

verus! {

// ---------------------------------------------------------------------------
// Writing
// ---------------------------------------------------------------------------

/// Nodes separated by commas, or `none`.
pub open spec fn node_list_text(nodes: Seq<usize>) -> Seq<char> {
    if nodes.len() == 0 {
        "none"@
    } else {
        joined(nodes.map_values(|n: usize| decimal(n as nat)), ","@)
    }
}

/// An edge as its two ends with a dash between them.
pub open spec fn edge_text(edge: (usize, usize)) -> Seq<char> {
    decimal(edge.0 as nat) + "-"@ + decimal(edge.1 as nat)
}

/// Edges separated by commas, or `none`.
pub open spec fn edge_list_text(edges: Seq<(usize, usize)>) -> Seq<char> {
    if edges.len() == 0 {
        "none"@
    } else {
        joined(edges.map_values(|e: (usize, usize)| edge_text(e)), ","@)
    }
}

/// A triplet as its components with dashes between them.
pub open spec fn triplet_text(triplet: (usize, usize, u8)) -> Seq<char> {
    decimal(triplet.0 as nat) + "-"@ + decimal(triplet.1 as nat) + "-"@ + decimal(triplet.2 as nat)
}

/// Triplets separated by commas, or `none`.
pub open spec fn triplet_list_text(triplets: Seq<(usize, usize, u8)>) -> Seq<char> {
    if triplets.len() == 0 {
        "none"@
    } else {
        joined(triplets.map_values(|t: (usize, usize, u8)| triplet_text(t)), ","@)
    }
}

/// The number of external modules and the edges to them, or `none`.
pub open spec fn external_text(count: usize, edges: Seq<(usize, usize)>) -> Seq<char> {
    if count == 0 {
        "none"@
    } else {
        decimal(count as nat) + ":"@ + edge_list_text(edges)
    }
}

/// A flag as `1` or `0`.
pub open spec fn flag_text(flag: bool) -> Seq<char> {
    if flag {
        decimal(1)
    } else {
        decimal(0)
    }
}

/// The text of a case: every field as `key=value`, separated by semicolons.
pub open spec fn case_text(case: CaseModel) -> Seq<char> {
    "n="@ + decimal(case.node_count as nat) + ";e="@ + node_list_text(case.entry_nodes) + ";c="@
        + node_list_text(case.cjs_nodes) + ";s="@ + edge_list_text(case.static_edges) + ";d="@
        + edge_list_text(case.dynamic_edges) + ";r="@ + edge_list_text(case.reexport_static_edges)
        + ";x="@ + external_text(case.external_module_count, case.external_dynamic_edges) + ";xs="@
        + triplet_list_text(case.external_static_default_edges) + ";p="@ + decimal(
        signatures_index(case.preserve_entry_signatures) as nat,
    ) + ";o="@ + flag_text(case.strict_execution_order) + ";t="@ + flag_text(case.treeshake)
        + ";m="@ + flag_text(case.minify_internal_exports)
}

pub fn encode_node_list(nodes: &[usize]) -> (s: String)
    ensures
        s@ == node_list_text(nodes@),
{
    if nodes.len() == 0 {
        return "none".to_owned();
    }
    let mut parts: Vec<String> = Vec::new();
    for i in 0..nodes.len()
        invariant
            texts(parts@) == nodes@.take(i as int).map_values(|n: usize| decimal(n as nat)),
    {
        let part = decimal_text(nodes[i] as u128);
        proof {
            lemma_texts_push(parts@, part);
            lemma_map_take(nodes@, |n: usize| decimal(n as nat), i as int);
        }
        parts.push(part);
    }
    assert(nodes@.take(nodes@.len() as int) == nodes@);
    join_texts(&parts, ",")
}

fn encode_edge(from: usize, to: usize) -> (s: String)
    ensures
        s@ == edge_text((from, to)),
{
    let mut s = decimal_text(from as u128);
    s.append("-");
    s.append(decimal_text(to as u128).as_str());
    s
}

pub fn encode_edge_list(edges: &[(usize, usize)]) -> (s: String)
    ensures
        s@ == edge_list_text(edges@),
{
    if edges.len() == 0 {
        return "none".to_owned();
    }
    let mut parts: Vec<String> = Vec::new();
    for i in 0..edges.len()
        invariant
            texts(parts@) == edges@.take(i as int).map_values(|e: (usize, usize)| edge_text(e)),
    {
        let part = encode_edge(edges[i].0, edges[i].1);
        proof {
            lemma_texts_push(parts@, part);
            lemma_map_take(edges@, |e: (usize, usize)| edge_text(e), i as int);
        }
        parts.push(part);
    }
    assert(edges@.take(edges@.len() as int) == edges@);
    join_texts(&parts, ",")
}

fn encode_triplet(a: usize, b: usize, c: u8) -> (s: String)
    ensures
        s@ == triplet_text((a, b, c)),
{
    let mut s = decimal_text(a as u128);
    s.append("-");
    s.append(decimal_text(b as u128).as_str());
    s.append("-");
    s.append(decimal_text(c as u128).as_str());
    s
}

pub fn encode_triplet_list(triplets: &[(usize, usize, u8)]) -> (s: String)
    ensures
        s@ == triplet_list_text(triplets@),
{
    if triplets.len() == 0 {
        return "none".to_owned();
    }
    let mut parts: Vec<String> = Vec::new();
    for i in 0..triplets.len()
        invariant
            texts(parts@) == triplets@.take(i as int).map_values(
                |t: (usize, usize, u8)| triplet_text(t),
            ),
    {
        let part = encode_triplet(triplets[i].0, triplets[i].1, triplets[i].2);
        proof {
            lemma_texts_push(parts@, part);
            lemma_map_take(triplets@, |t: (usize, usize, u8)| triplet_text(t), i as int);
        }
        parts.push(part);
    }
    assert(triplets@.take(triplets@.len() as int) == triplets@);
    join_texts(&parts, ",")
}

pub fn encode_external_spec(count: usize, edges: &[(usize, usize)]) -> (s: String)
    ensures
        s@ == external_text(count, edges@),
{
    if count == 0 {
        return "none".to_owned();
    }
    let mut s = decimal_text(count as u128);
    s.append(":");
    s.append(encode_edge_list(edges).as_str());
    s
}

fn encode_flag(flag: bool) -> (s: String)
    ensures
        s@ == flag_text(flag),
{
    if flag {
        decimal_text(1)
    } else {
        decimal_text(0)
    }
}

/// Writes a case, all but its seed, as text.
pub fn encode_case_spec(case: &GraphCase) -> (s: String)
    ensures
        s@ == case_text(case@),
{
    let mut s = "n=".to_owned();
    s.append(decimal_text(case.node_count as u128).as_str());
    s.append(";e=");
    s.append(encode_node_list(case.entry_nodes.as_slice()).as_str());
    s.append(";c=");
    s.append(encode_node_list(case.cjs_nodes.as_slice()).as_str());
    s.append(";s=");
    s.append(encode_edge_list(case.static_edges.as_slice()).as_str());
    s.append(";d=");
    s.append(encode_edge_list(case.dynamic_edges.as_slice()).as_str());
    s.append(";r=");
    s.append(encode_edge_list(case.reexport_static_edges.as_slice()).as_str());
    s.append(";x=");
    s.append(
        encode_external_spec(
            case.external_module_count,
            case.external_dynamic_edges.as_slice(),
        ).as_str(),
    );
    s.append(";xs=");
    s.append(encode_triplet_list(case.external_static_default_edges.as_slice()).as_str());
    s.append(";p=");
    s.append(
        decimal_text(
            preserve_entry_signatures_to_index(case.preserve_entry_signatures) as u128,
        ).as_str(),
    );
    s.append(";o=");
    s.append(encode_flag(case.strict_execution_order).as_str());
    s.append(";t=");
    s.append(encode_flag(case.treeshake).as_str());
    s.append(";m=");
    s.append(encode_flag(case.minify_internal_exports).as_str());
    s
}

// ---------------------------------------------------------------------------
// Reading lists
// ---------------------------------------------------------------------------

/// An error message: what is wrong, and the text it is wrong with in backquotes.
pub open spec fn complaint(what: Seq<char>, s: Seq<char>) -> Seq<char> {
    what + " `"@ + s + "`"@
}

/// Whether a list is written as empty.
pub open spec fn names_nothing(value: Seq<char>) -> bool {
    value.len() == 0 || value == "none"@
}

/// What the parts read as, one after another, or the first complaint.
pub open spec fn all_read<T>(
    parts: Seq<Seq<char>>,
    read: spec_fn(Seq<char>) -> Result<T, Seq<char>>,
) -> Result<Seq<T>, Seq<char>>
    decreases parts.len(),
{
    if parts.len() == 0 {
        Ok(Seq::empty())
    } else {
        match all_read(parts.drop_last(), read) {
            Err(e) => Err(e),
            Ok(front) => match read(parts.last()) {
                Err(e) => Err(e),
                Ok(item) => Ok(front.push(item)),
            },
        }
    }
}

/// The `usize` that a text writes, or the given complaint.
pub open spec fn usize_read(s: Seq<char>, otherwise: Seq<char>) -> Result<usize, Seq<char>> {
    match parsed_unsigned(s, usize::MAX as nat) {
        Some(v) => Ok(v as usize),
        None => Err(otherwise),
    }
}

/// The `u8` that a text writes, or the given complaint.
pub open spec fn u8_read(s: Seq<char>, otherwise: Seq<char>) -> Result<u8, Seq<char>> {
    match parsed_unsigned(s, u8::MAX as nat) {
        Some(v) => Ok(v as u8),
        None => Err(otherwise),
    }
}

/// The node that a part of a list writes.
pub open spec fn node_read(part: Seq<char>) -> Result<usize, Seq<char>> {
    usize_read(part, complaint("invalid node index"@, part))
}

/// The nodes that a list writes.
pub open spec fn nodes_read(value: Seq<char>) -> Result<Seq<usize>, Seq<char>> {
    if names_nothing(value) {
        Ok(Seq::empty())
    } else {
        all_read(split(value, ','), |part: Seq<char>| node_read(part))
    }
}

/// The edge that a part of a list writes: its ends around the first dash.
pub open spec fn edge_read(part: Seq<char>) -> Result<(usize, usize), Seq<char>> {
    match split_at_first(part, '-') {
        None => Err(complaint("invalid edge"@, part)),
        Some((from, to)) => match usize_read(from, complaint("invalid edge source"@, from)) {
            Err(e) => Err(e),
            Ok(a) => match usize_read(to, complaint("invalid edge destination"@, to)) {
                Err(e) => Err(e),
                Ok(b) => Ok((a, b)),
            },
        },
    }
}

/// The edges that a list writes.
pub open spec fn edges_read(value: Seq<char>) -> Result<Seq<(usize, usize)>, Seq<char>> {
    if names_nothing(value) {
        Ok(Seq::empty())
    } else {
        all_read(split(value, ','), |part: Seq<char>| edge_read(part))
    }
}

/// The triplet that a part of a list writes: three numbers with dashes
/// between them. The numbers are read before it is seen that one is missing
/// or that there are too many.
pub open spec fn triplet_read(part: Seq<char>) -> Result<(usize, usize, u8), Seq<char>> {
    let fields = split(part, '-');
    let bad_shape = complaint("invalid triplet"@, part);
    let bad_field = complaint("invalid triplet field in"@, part);
    match usize_read(fields[0], bad_field) {
        Err(e) => Err(e),
        Ok(a) => if fields.len() < 2 {
            Err(bad_shape)
        } else {
            match usize_read(fields[1], bad_field) {
                Err(e) => Err(e),
                Ok(b) => if fields.len() < 3 {
                    Err(bad_shape)
                } else {
                    match u8_read(fields[2], bad_field) {
                        Err(e) => Err(e),
                        Ok(c) => if fields.len() > 3 {
                            Err(bad_shape)
                        } else {
                            Ok((a, b, c))
                        },
                    }
                },
            }
        },
    }
}

/// The triplets that a list writes.
pub open spec fn triplets_read(value: Seq<char>) -> Result<Seq<(usize, usize, u8)>, Seq<char>> {
    if names_nothing(value) {
        Ok(Seq::empty())
    } else {
        all_read(split(value, ','), |part: Seq<char>| triplet_read(part))
    }
}

/// The number of external modules and the edges to them that a text writes.
pub open spec fn external_read(value: Seq<char>) -> Result<
    (usize, Seq<(usize, usize)>),
    Seq<char>,
> {
    if names_nothing(value) {
        Ok((0usize, Seq::empty()))
    } else {
        match split_at_first(value, ':') {
            None => Err(complaint("invalid external spec"@, value)),
            Some((count, edges)) => match usize_read(
                count,
                complaint("invalid external module count"@, count),
            ) {
                Err(e) => Err(e),
                Ok(n) => match edges_read(edges) {
                    Err(e) => Err(e),
                    Ok(list) => Ok((n, list)),
                },
            },
        }
    }
}

/// The flag that a text writes, or a complaint.
pub open spec fn flag_read(value: Seq<char>, what: Seq<char>) -> Result<bool, Seq<char>> {
    if value == "1"@ || value == "true"@ {
        Ok(true)
    } else if value == "0"@ || value == "false"@ {
        Ok(false)
    } else {
        Err(complaint(what, value))
    }
}

/// An error message about a text.
pub fn complain(what: &str, s: &str) -> (message: String)
    ensures
        message@ == complaint(what@, s@),
        message@ == what@ + " `"@ + s@ + "`"@,
{
    let mut message = what.to_owned();
    message.append(" `");
    message.append(s);
    message.append("`");
    message
}

fn is_empty_list(value: &str) -> (r: bool)
    ensures
        r == names_nothing(value@),
{
    value.is_empty() || same_text(value, "none")
}

pub fn decode_node_list(value: &str) -> (nodes: Result<Vec<usize>, String>)
    ensures
        match nodes {
            Ok(v) => nodes_read(value@) == Ok::<Seq<usize>, Seq<char>>(v@),
            Err(e) => nodes_read(value@) == Err::<Seq<usize>, Seq<char>>(e@),
        },
{
    if is_empty_list(value) {
        return Ok(Vec::new());
    }
    let parts = split_text(value, ',');
    let ghost all = texts(parts@);
    let ghost read = |part: Seq<char>| node_read(part);
    let mut nodes: Vec<usize> = Vec::new();
    for i in 0..parts.len()
        invariant
            all == texts(parts@),
            all == split(value@, ','),
            !names_nothing(value@),
            read == (|part: Seq<char>| node_read(part)),
            all_read(all.take(i as int), read) == Ok::<Seq<usize>, Seq<char>>(nodes@),
    {
        proof {
            lemma_reading_on(all, read, i as int);
        }
        match parse_usize(parts[i].as_str()) {
            Some(v) => {
                nodes.push(v);
            },
            None => {
                return Err(complain("invalid node index", parts[i].as_str()));
            },
        }
    }
    assert(all.take(all.len() as int) == all);
    Ok(nodes)
}

/// Reading one part more: the list grows by it, or its complaint stands.
proof fn lemma_reading_on<T>(
    parts: Seq<Seq<char>>,
    read: spec_fn(Seq<char>) -> Result<T, Seq<char>>,
    i: int,
)
    requires
        0 <= i < parts.len(),
        all_read(parts.take(i), read) is Ok,
    ensures
        match read(parts[i]) {
            Ok(item) => all_read(parts.take(i + 1), read) == Ok::<Seq<T>, Seq<char>>(
                all_read(parts.take(i), read)->Ok_0.push(item),
            ),
            Err(e) => all_read(parts, read) == Err::<Seq<T>, Seq<char>>(e),
        },
{
    assert(parts.take(i + 1).drop_last() == parts.take(i));
    assert(parts.take(i + 1).last() == parts[i]);
    if read(parts[i]) is Err {
        lemma_complaint_stays(parts, read, i + 1);
    }
}

proof fn lemma_complaint_stays<T>(
    parts: Seq<Seq<char>>,
    read: spec_fn(Seq<char>) -> Result<T, Seq<char>>,
    i: int,
)
    requires
        0 <= i <= parts.len(),
        all_read(parts.take(i), read) is Err,
    ensures
        all_read(parts, read) == all_read(parts.take(i), read),
    decreases parts.len(),
{
    if i < parts.len() {
        assert(parts.drop_last().take(i) == parts.take(i));
        lemma_complaint_stays(parts.drop_last(), read, i);
    } else {
        assert(parts.take(i) == parts);
    }
}

fn decode_edge(part: &str) -> (edge: Result<(usize, usize), String>)
    ensures
        match edge {
            Ok(e) => edge_read(part@) == Ok::<(usize, usize), Seq<char>>(e),
            Err(e) => edge_read(part@) == Err::<(usize, usize), Seq<char>>(e@),
        },
{
    match split_text_once(part, '-') {
        None => Err(complain("invalid edge", part)),
        Some((from, to)) => match parse_usize(from.as_str()) {
            None => Err(complain("invalid edge source", from.as_str())),
            Some(a) => match parse_usize(to.as_str()) {
                None => Err(complain("invalid edge destination", to.as_str())),
                Some(b) => Ok((a, b)),
            },
        },
    }
}

pub fn decode_edge_list(value: &str) -> (edges: Result<Vec<(usize, usize)>, String>)
    ensures
        match edges {
            Ok(v) => edges_read(value@) == Ok::<Seq<(usize, usize)>, Seq<char>>(v@),
            Err(e) => edges_read(value@) == Err::<Seq<(usize, usize)>, Seq<char>>(e@),
        },
{
    if is_empty_list(value) {
        return Ok(Vec::new());
    }
    let parts = split_text(value, ',');
    let ghost all = texts(parts@);
    let ghost read = |part: Seq<char>| edge_read(part);
    let mut edges: Vec<(usize, usize)> = Vec::new();
    for i in 0..parts.len()
        invariant
            all == texts(parts@),
            all == split(value@, ','),
            !names_nothing(value@),
            read == (|part: Seq<char>| edge_read(part)),
            all_read(all.take(i as int), read) == Ok::<Seq<(usize, usize)>, Seq<char>>(edges@),
    {
        proof {
            lemma_reading_on(all, read, i as int);
        }
        match decode_edge(parts[i].as_str()) {
            Ok(edge) => {
                edges.push(edge);
            },
            Err(e) => {
                return Err(e);
            },
        }
    }
    assert(all.take(all.len() as int) == all);
    Ok(edges)
}

fn decode_triplet(part: &str) -> (triplet: Result<(usize, usize, u8), String>)
    ensures
        match triplet {
            Ok(t) => triplet_read(part@) == Ok::<(usize, usize, u8), Seq<char>>(t),
            Err(e) => triplet_read(part@) == Err::<(usize, usize, u8), Seq<char>>(e@),
        },
{
    let fields = split_text(part, '-');
    proof {
        lemma_split_nonempty(part@, '-');
        assert(texts(fields@).len() == fields@.len());
        assert(forall|i: int| 0 <= i < fields@.len() ==> texts(fields@)[i] == (#[trigger] fields@[i])@);
    }
    let a: usize = match parse_usize(fields[0].as_str()) {
        Some(v) => v,
        None => {
            return Err(complain("invalid triplet field in", part));
        },
    };
    if fields.len() < 2 {
        return Err(complain("invalid triplet", part));
    }
    let b: usize = match parse_usize(fields[1].as_str()) {
        Some(v) => v,
        None => {
            return Err(complain("invalid triplet field in", part));
        },
    };
    if fields.len() < 3 {
        return Err(complain("invalid triplet", part));
    }
    let c: u8 = match parse_u8(fields[2].as_str()) {
        Some(v) => v,
        None => {
            return Err(complain("invalid triplet field in", part));
        },
    };
    if fields.len() > 3 {
        return Err(complain("invalid triplet", part));
    }
    Ok((a, b, c))
}

pub fn decode_triplet_list(value: &str) -> (triplets: Result<Vec<(usize, usize, u8)>, String>)
    ensures
        match triplets {
            Ok(v) => triplets_read(value@) == Ok::<Seq<(usize, usize, u8)>, Seq<char>>(v@),
            Err(e) => triplets_read(value@) == Err::<Seq<(usize, usize, u8)>, Seq<char>>(e@),
        },
{
    if is_empty_list(value) {
        return Ok(Vec::new());
    }
    let parts = split_text(value, ',');
    let ghost all = texts(parts@);
    let ghost read = |part: Seq<char>| triplet_read(part);
    let mut triplets: Vec<(usize, usize, u8)> = Vec::new();
    for i in 0..parts.len()
        invariant
            all == texts(parts@),
            all == split(value@, ','),
            !names_nothing(value@),
            read == (|part: Seq<char>| triplet_read(part)),
            all_read(all.take(i as int), read) == Ok::<Seq<(usize, usize, u8)>, Seq<char>>(
                triplets@,
            ),
    {
        proof {
            lemma_reading_on(all, read, i as int);
        }
        match decode_triplet(parts[i].as_str()) {
            Ok(triplet) => {
                triplets.push(triplet);
            },
            Err(e) => {
                return Err(e);
            },
        }
    }
    assert(all.take(all.len() as int) == all);
    Ok(triplets)
}

pub fn decode_external_spec(value: &str) -> (spec: Result<(usize, Vec<(usize, usize)>), String>)
    ensures
        match spec {
            Ok((n, v)) => external_read(value@) == Ok::<(usize, Seq<(usize, usize)>), Seq<char>>(
                (n, v@),
            ),
            Err(e) => external_read(value@) == Err::<(usize, Seq<(usize, usize)>), Seq<char>>(e@),
        },
{
    if is_empty_list(value) {
        return Ok((0, Vec::new()));
    }
    match split_text_once(value, ':') {
        None => Err(complain("invalid external spec", value)),
        Some((count, edges)) => match parse_usize(count.as_str()) {
            None => Err(complain("invalid external module count", count.as_str())),
            Some(n) => match decode_edge_list(edges.as_str()) {
                Err(e) => Err(e),
                Ok(list) => Ok((n, list)),
            },
        },
    }
}

/// Reads a flag, given as a digit or as a word.
pub fn decode_flag(value: &str, what: &str) -> (flag: Result<bool, String>)
    ensures
        match flag {
            Ok(b) => flag_read(value@, what@) == Ok::<bool, Seq<char>>(b),
            Err(e) => flag_read(value@, what@) == Err::<bool, Seq<char>>(e@),
        },
{
    if same_text(value, "1") || same_text(value, "true") {
        Ok(true)
    } else if same_text(value, "0") || same_text(value, "false") {
        Ok(false)
    } else {
        Err(complain(what, value))
    }
}

} // verus!
