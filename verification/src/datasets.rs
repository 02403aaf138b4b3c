//! Graphs of the public datasets, built from the text of their files: the
//! knowledge-graph triples of FB15K-237 and the citation lists of
//! ogbn-arxiv.

use vstd::prelude::*;
use vstd::hash_map::StringHashMap;
use crate::formats::{split_on, text_lines, split_lines, split_fields, parse_unsigned, parse_decimal};
use crate::vault::{string_views, key_index, unique_keys, lemma_key_index};
use regex::Regex;

verus! {

/// A triple as plain values.
pub open spec fn triple_view(t: (String, String, String)) -> (Seq<char>, Seq<char>, Seq<char>) {
    (t.0@, t.1@, t.2@)
}

/// The triples among the first `m` lines: the lines of exactly three
/// tab-separated fields.
pub open spec fn tsv_triples(lines: Seq<Seq<char>>, m: int) -> Seq<(Seq<char>, Seq<char>, Seq<char>)>
    decreases m,
{
    if m <= 0 {
        Seq::empty()
    } else {
        let prev = tsv_triples(lines, m - 1);
        let f = split_on(lines[m - 1], '\t');
        if f.len() == 3 {
            prev.push((f[0], f[1], f[2]))
        } else {
            prev
        }
    }
}

/// The triples of a tab-separated file: head, relation, tail per line; other
/// lines are skipped.
pub fn tsv_rows(text: &str) -> (rows: Vec<(String, String, String)>)
    ensures
        rows@.map_values(|t: (String, String, String)| triple_view(t)) == tsv_triples(
            text_lines(text@),
            text_lines(text@).len() as int,
        ),
{
    let lines = split_lines(text);
    let ghost ls = string_views(lines@);
    let mut rows: Vec<(String, String, String)> = Vec::new();
    let mut i: usize = 0;
    while i < lines.len()
        invariant
            i <= lines.len(),
            ls == string_views(lines@),
            rows@.map_values(|t: (String, String, String)| triple_view(t)) == tsv_triples(ls, i as int),
        decreases lines.len() - i,
    {
        let fields = split_fields(lines[i].as_str(), '\t');
        assert(ls[i as int] == lines@[i as int]@);
        let ghost before = rows@.map_values(|t: (String, String, String)| triple_view(t));
        if fields.len() == 3 {
            let ghost fv = string_views(fields@);
            assert(fv[0] == fields@[0]@ && fv[1] == fields@[1]@ && fv[2] == fields@[2]@);
            let row = (fields[0].clone(), fields[1].clone(), fields[2].clone());
            rows.push(row);
            assert(rows@.map_values(|t: (String, String, String)| triple_view(t)) =~= before.push(
                (fv[0], fv[1], fv[2]),
            ));
        }
        i = i + 1;
    }
    rows
}

/// The entity names in order of appearance: head then tail, row by row.
pub open spec fn entity_names(rows: Seq<(Seq<char>, Seq<char>, Seq<char>)>) -> Seq<Seq<char>> {
    Seq::new(2 * rows.len(), |k: int| if k % 2 == 0 { rows[k / 2].0 } else { rows[k / 2].2 })
}

/// The entities: each distinct name once, in order of first appearance; an
/// entity's id is its position.
pub open spec fn entities(rows: Seq<(Seq<char>, Seq<char>, Seq<char>)>) -> Seq<Seq<char>> {
    unique_keys(entity_names(rows), (2 * rows.len()) as int)
}

/// The id of an entity name.
pub open spec fn entity_id(rows: Seq<(Seq<char>, Seq<char>, Seq<char>)>, name: Seq<char>) -> u32 {
    match key_index(entities(rows), name) {
        Some(i) => i as u32,
        None => 0,
    }
}

/// Number of rows among the first `m` with relation `r`.
pub open spec fn relation_count(rows: Seq<(Seq<char>, Seq<char>, Seq<char>)>, r: Seq<char>, m: int) -> nat
    decreases m,
{
    if m <= 0 {
        0
    } else {
        relation_count(rows, r, m - 1) + (if rows[m - 1].1 == r {
            1nat
        } else {
            0nat
        })
    }
}

/// One edge per row, from the head's id to the tail's id.
pub open spec fn triple_edges(rows: Seq<(Seq<char>, Seq<char>, Seq<char>)>) -> Seq<(u32, u32)> {
    Seq::new(rows.len(), |i: int| (entity_id(rows, rows[i].0), entity_id(rows, rows[i].2)))
}

/// The ids of the heads and tails of the rows, among the first `m`, whose
/// relation occurs at most `max` times in all rows.
pub open spec fn rare_triple_entities(rows: Seq<(Seq<char>, Seq<char>, Seq<char>)>, max: nat, m: int) -> Seq<
    u32,
>
    decreases m,
{
    if m <= 0 {
        Seq::empty()
    } else {
        let prev = rare_triple_entities(rows, max, m - 1);
        let row = rows[m - 1];
        if relation_count(rows, row.1, rows.len() as int) <= max {
            prev.push(entity_id(rows, row.0)).push(entity_id(rows, row.2))
        } else {
            prev
        }
    }
}

proof fn lemma_unique_keys_facts(keys: Seq<Seq<char>>, m: int)
    requires
        0 <= m <= keys.len(),
    ensures
        unique_keys(keys, m).len() <= m,
        forall|k: Seq<char>| unique_keys(keys, m).contains(k) <==> exists|j: int| 0 <= j < m && keys[j] == k,
    decreases m,
{
    if m > 0 {
        lemma_unique_keys_facts(keys, m - 1);
        let prev = unique_keys(keys, m - 1);
        let cur = unique_keys(keys, m);
        assert forall|k: Seq<char>| cur.contains(k) <==> exists|j: int| 0 <= j < m && keys[j] == k by {
            if cur.contains(k) {
                if prev.contains(k) {
                    let j = choose|j: int| 0 <= j < m - 1 && keys[j] == k;
                } else {
                    let p = choose|p: int| 0 <= p < cur.len() && cur[p] == k;
                    assert(p == cur.len() - 1);
                    assert(keys[m - 1] == k);
                }
            }
            if exists|j: int| 0 <= j < m && keys[j] == k {
                let j = choose|j: int| 0 <= j < m && keys[j] == k;
                if j < m - 1 {
                    assert(prev.contains(k));
                    let p = choose|p: int| 0 <= p < prev.len() && prev[p] == k;
                    assert(cur[p] == k);
                } else if !prev.contains(k) {
                    assert(cur[cur.len() - 1] == k);
                } else {
                    let p = choose|p: int| 0 <= p < prev.len() && prev[p] == k;
                    assert(cur[p] == k);
                }
            }
        }
    }
}

proof fn lemma_unique_keys_prefix(keys: Seq<Seq<char>>, a: int, b: int)
    requires
        0 <= a <= b <= keys.len(),
    ensures
        unique_keys(keys, a).len() <= unique_keys(keys, b).len(),
        forall|p: int| 0 <= p < unique_keys(keys, a).len() ==> #[trigger] unique_keys(keys, b)[p] == unique_keys(keys, a)[p],
    decreases b - a,
{
    if a < b {
        lemma_unique_keys_prefix(keys, a, b - 1);
    }
}

/// Registers a name: a new name gets the next id.
fn register(ids: &mut StringHashMap<u32>, next: &mut u32, name: &String, Ghost(uniq): Ghost<Seq<Seq<char>>>) -> (r:
    Ghost<Seq<Seq<char>>>)
    requires
        *old(next) == uniq.len(),
        uniq.len() < 0xffff_ffff,
        forall|k: Seq<char>| #[trigger] old(ids)@.contains_key(k) <==> uniq.contains(k),
        forall|k: Seq<char>|
            #[trigger] old(ids)@.contains_key(k) ==> key_index(uniq, k) == Some(old(ids)@[k] as int),
    ensures
        r@ == (if uniq.contains(name@) {
            uniq
        } else {
            uniq.push(name@)
        }),
        *final(next) == r@.len(),
        forall|k: Seq<char>| #[trigger] final(ids)@.contains_key(k) <==> r@.contains(k),
        forall|k: Seq<char>|
            #[trigger] final(ids)@.contains_key(k) ==> key_index(r@, k) == Some(final(ids)@[k] as int),
{
    if ids.contains_key(name.as_str()) {
        Ghost(uniq)
    } else {
        let id = *next;
        ids.insert(name.clone(), id);
        *next = id + 1;
        let ghost u2 = uniq.push(name@);
        proof {
            assert(!uniq.contains(name@));
            lemma_key_index(u2, name@);
            assert(u2[uniq.len() as int] == name@);
            assert forall|k: Seq<char>| #[trigger] ids@.contains_key(k) <==> u2.contains(k) by {
                if u2.contains(k) && k != name@ {
                    let p = choose|p: int| 0 <= p < u2.len() && u2[p] == k;
                    assert(uniq[p] == k);
                }
                if uniq.contains(k) {
                    let p = choose|p: int| 0 <= p < uniq.len() && uniq[p] == k;
                    assert(u2[p] == k);
                }
            }
            assert forall|k: Seq<char>| #[trigger] ids@.contains_key(k) implies key_index(u2, k) == Some(
                ids@[k] as int,
            ) by {
                lemma_key_index(u2, k);
                lemma_key_index(uniq, k);
                if k == name@ {
                    match key_index(u2, k) {
                        Some(q) => {
                            if q < uniq.len() {
                                assert(uniq[q] == k);
                            }
                        },
                        None => {
                            assert(u2[uniq.len() as int] == k);
                        },
                    }
                } else {
                    assert(uniq.contains(k));
                    match key_index(uniq, k) {
                        Some(q) => {
                            assert(u2[q] == k);
                            match key_index(u2, k) {
                                Some(q2) => {
                                    if q2 < q {
                                        assert(uniq[q2] == u2[q2]);
                                    }
                                    if q < q2 {
                                        assert(u2[q] == k);
                                    }
                                },
                                None => {},
                            }
                        },
                        None => {},
                    }
                }
            }
        }
        Ghost(u2)
    }
}

proof fn lemma_relation_count_bound(rows: Seq<(Seq<char>, Seq<char>, Seq<char>)>, r: Seq<char>, m: int)
    requires
        0 <= m,
    ensures
        relation_count(rows, r, m) <= m,
    decreases m,
{
    if m > 0 {
        lemma_relation_count_bound(rows, r, m - 1);
    }
}

/// The rows as plain values.
pub open spec fn rows_view(rows: Seq<(String, String, String)>) -> Seq<(Seq<char>, Seq<char>, Seq<char>)> {
    rows.map_values(|t: (String, String, String)| triple_view(t))
}

/// The graph of knowledge-graph triples: entities numbered in order of first
/// appearance, one edge per triple from head to tail, and as rare ground
/// truth the heads and tails of triples whose relation occurs at most
/// `rare_freq_max` times (listed triple by triple; an entity may repeat).
pub fn triple_graph(rows: &Vec<(String, String, String)>, rare_freq_max: usize) -> (g: (
    usize,
    Vec<(u32, u32)>,
    Vec<u32>,
))
    requires
        2 * rows.len() < 0xffff_ffff,
    ensures
        g.0 == entities(rows_view(rows@)).len(),
        g.1@ == triple_edges(rows_view(rows@)),
        g.2@ == rare_triple_entities(rows_view(rows@), rare_freq_max as nat, rows.len() as int),
{
    let ghost rv = rows_view(rows@);
    let ghost names = entity_names(rv);
    let mut ids: StringHashMap<u32> = StringHashMap::new();
    let mut counts: StringHashMap<u32> = StringHashMap::new();
    let mut next: u32 = 0;
    let ghost mut uniq: Seq<Seq<char>> = Seq::empty();
    let mut i: usize = 0;
    while i < rows.len()
        invariant
            i <= rows.len(),
            2 * rows.len() < 0xffff_ffff,
            rv == rows_view(rows@),
            names == entity_names(rv),
            uniq == unique_keys(names, 2 * i),
            next == uniq.len(),
            forall|k: Seq<char>| #[trigger] ids@.contains_key(k) <==> uniq.contains(k),
            forall|k: Seq<char>| #[trigger] ids@.contains_key(k) ==> key_index(uniq, k) == Some(ids@[k] as int),
            forall|r: Seq<char>|
                #[trigger] counts@.contains_key(r) ==> counts@[r] == relation_count(rv, r, i as int),
            forall|r: Seq<char>| !(#[trigger] counts@.contains_key(r)) ==> relation_count(rv, r, i as int) == 0,
        decreases rows.len() - i,
    {
        proof {
            lemma_unique_keys_facts(names, 2 * i);
        }
        assert(rv[i as int] == triple_view(rows@[i as int]));
        assert(names[2 * i] == rv[i as int].0);
        assert(names[2 * i + 1] == rv[i as int].2);
        let Ghost(u1) = register(&mut ids, &mut next, &rows[i].0, Ghost(uniq));
        proof {
            uniq = u1;
            lemma_unique_keys_facts(names, 2 * i + 1);
        }
        let Ghost(u2) = register(&mut ids, &mut next, &rows[i].2, Ghost(uniq));
        proof {
            uniq = u2;
        }
        let rel = &rows[i].1;
        proof {
            lemma_relation_count_bound(rv, rel@, i as int);
        }
        let c: u32 = match counts.get(rel.as_str()) {
            Some(c) => *c,
            None => 0,
        };
        counts.insert(rel.clone(), c + 1);
        proof {
            assert forall|r: Seq<char>| #[trigger] counts@.contains_key(r) implies counts@[r] == relation_count(
                rv,
                r,
                i + 1,
            ) by {}
        }
        i = i + 1;
    }
    proof {
        lemma_unique_keys_facts(names, 2 * rows.len() as int);
    }
    assert(uniq == entities(rv));
    let mut edges: Vec<(u32, u32)> = Vec::new();
    let mut rare: Vec<u32> = Vec::new();
    let mut j: usize = 0;
    while j < rows.len()
        invariant
            j <= rows.len(),
            rv == rows_view(rows@),
            names == entity_names(rv),
            uniq == entities(rv),
            forall|k: Seq<char>| uniq.contains(k) <==> exists|x: int| 0 <= x < names.len() && names[x] == k,
            forall|k: Seq<char>| #[trigger] ids@.contains_key(k) <==> uniq.contains(k),
            forall|k: Seq<char>| #[trigger] ids@.contains_key(k) ==> key_index(uniq, k) == Some(ids@[k] as int),
            forall|r: Seq<char>|
                #[trigger] counts@.contains_key(r) ==> counts@[r] == relation_count(rv, r, rows.len() as int),
            forall|r: Seq<char>|
                !(#[trigger] counts@.contains_key(r)) ==> relation_count(rv, r, rows.len() as int) == 0,
            edges@ == triple_edges(rv).take(j as int),
            rare@ == rare_triple_entities(rv, rare_freq_max as nat, j as int),
        decreases rows.len() - j,
    {
        assert(rv[j as int] == triple_view(rows@[j as int]));
        assert(names[2 * j] == rv[j as int].0);
        assert(names[2 * j + 1] == rv[j as int].2);
        let hu: u32 = match ids.get(rows[j].0.as_str()) {
            Some(v) => *v,
            None => 0,
        };
        let tu: u32 = match ids.get(rows[j].2.as_str()) {
            Some(v) => *v,
            None => 0,
        };
        assert(hu == entity_id(rv, rv[j as int].0));
        assert(tu == entity_id(rv, rv[j as int].2));
        edges.push((hu, tu));
        assert(edges@ =~= triple_edges(rv).take(j + 1));
        let c: u32 = match counts.get(rows[j].1.as_str()) {
            Some(c) => *c,
            None => 0,
        };
        if c as usize <= rare_freq_max {
            rare.push(hu);
            rare.push(tu);
        }
        j = j + 1;
    }
    assert(edges@ =~= triple_edges(rv));
    (next as usize, edges, rare)
}

/// The edges listed after the header line, among the first `m` lines: lines
/// of two comma-separated fields give an edge, other lines are skipped, and a
/// field that is not a 32-bit unsigned number fails the whole list.
pub open spec fn csv_edges(lines: Seq<Seq<char>>, m: int) -> Option<Seq<(u32, u32)>>
    decreases m,
{
    if m <= 1 {
        Some(Seq::empty())
    } else {
        match csv_edges(lines, m - 1) {
            None => None,
            Some(prev) => {
                let f = split_on(lines[m - 1], ',');
                if f.len() != 2 {
                    Some(prev)
                } else {
                    match (parse_unsigned(f[0], u32::MAX as int), parse_unsigned(f[1], u32::MAX as int)) {
                        (Some(a), Some(b)) => Some(prev.push((a as u32, b as u32))),
                        _ => None,
                    }
                }
            },
        }
    }
}

/// The largest endpoint of the edges, 0 when there are none.
pub open spec fn max_endpoint(edges: Seq<(u32, u32)>) -> u32
    decreases edges.len(),
{
    if edges.len() == 0 {
        0
    } else {
        let m = max_endpoint(edges.drop_last());
        let e = edges.last();
        let a = if e.0 > m {
            e.0
        } else {
            m
        };
        if e.1 > a {
            e.1
        } else {
            a
        }
    }
}

/// The ids listed after the header line, among the first `m` lines, whose
/// count (the second field; 0 when it is not a number) is at most `max`; a
/// first field that is not a 32-bit unsigned number fails the whole list.
pub open spec fn csv_rare(lines: Seq<Seq<char>>, max: nat, m: int) -> Option<Seq<u32>>
    decreases m,
{
    if m <= 1 {
        Some(Seq::empty())
    } else {
        match csv_rare(lines, max, m - 1) {
            None => None,
            Some(prev) => {
                let f = split_on(lines[m - 1], ',');
                if f.len() != 2 {
                    Some(prev)
                } else {
                    match parse_unsigned(f[0], u32::MAX as int) {
                        None => None,
                        Some(id) => {
                            let c = match parse_unsigned(f[1], usize::MAX as int) {
                                Some(c) => c,
                                None => 0,
                            };
                            if c <= max {
                                Some(prev.push(id as u32))
                            } else {
                                Some(prev)
                            }
                        },
                    }
                }
            },
        }
    }
}

/// The edges of a citation list (`source,target` per line after a header)
/// and the node count, one more than the largest id; `None` when an id is
/// not a 32-bit unsigned number.
pub fn citation_edges(text: &str) -> (r: Option<(Vec<(u32, u32)>, u64)>)
    ensures
        match csv_edges(text_lines(text@), text_lines(text@).len() as int) {
            Some(es) => r matches Some(x) && x.0@ == es && x.1 == max_endpoint(es) + 1,
            None => r is None,
        },
        r matches Some(x) ==> forall|i: int|
            0 <= i < x.0.len() ==> (#[trigger] x.0@[i]).0 < x.1 && x.0@[i].1 < x.1,
        r matches Some(x) ==> (x.0.len() == 0 ==> x.1 == 1),
        r matches Some(x) ==> (x.0.len() > 0 ==> exists|i: int|
            0 <= i < x.0.len() && (#[trigger] x.0@[i].0 as int + 1 == x.1 || x.0@[i].1 as int + 1 == x.1)),
{
    let lines = split_lines(text);
    let ghost ls = string_views(lines@);
    let mut edges: Vec<(u32, u32)> = Vec::new();
    let mut max_id: u32 = 0;
    let mut i: usize = 0;
    while i < lines.len()
        invariant
            i <= lines.len(),
            ls == string_views(lines@),
            ls == text_lines(text@),
            csv_edges(ls, i as int) == Some(edges@),
            max_id == max_endpoint(edges@),
        decreases lines.len() - i,
    {
        assert(ls[i as int] == lines@[i as int]@);
        if i == 0 {
            i = i + 1;
            continue;
        }
        let fields = split_fields(lines[i].as_str(), ',');
        if fields.len() != 2 {
            i = i + 1;
            continue;
        }
        let ghost fv = string_views(fields@);
        assert(fv[0] == fields@[0]@ && fv[1] == fields@[1]@);
        assert(split_on(ls[i as int], ',') == fv);
        let f0: &str = fields[0].as_str();
        let f1: &str = fields[1].as_str();
        assert(f0@ == fv[0] && f1@ == fv[1]);
        let a = match parse_decimal(f0, 0xffff_ffff) {
            Some(v) => v,
            None => {
                proof {
                    assert(parse_unsigned(fv[0], u32::MAX as int) is None);
                    assert(csv_edges(ls, i as int + 1) is None);
                    lemma_csv_edges_none(ls, i as int + 1, lines.len() as int);
                }
                return None;
            },
        };
        let b = match parse_decimal(f1, 0xffff_ffff) {
            Some(v) => v,
            None => {
                proof {
                    assert(parse_unsigned(fv[1], u32::MAX as int) is None);
                    assert(csv_edges(ls, i as int + 1) is None);
                    lemma_csv_edges_none(ls, i as int + 1, lines.len() as int);
                }
                return None;
            },
        };
        assert(parse_unsigned(fv[0], u32::MAX as int) == Some(a as int));
        assert(parse_unsigned(fv[1], u32::MAX as int) == Some(b as int));
        let e = (a as u32, b as u32);
        assert(e.0 as int == a as int && e.1 as int == b as int);
        assert(csv_edges(ls, i as int + 1) == Some(edges@.push(e)));
        let ghost before = edges@;
        edges.push(e);
        assert(edges@.drop_last() =~= before);
        if e.0 > max_id {
            max_id = e.0;
        }
        if e.1 > max_id {
            max_id = e.1;
        }
        i = i + 1;
    }
    proof {
        lemma_node_count_covers_endpoints(edges@);
    }
    Some((edges, max_id as u64 + 1))
}

/// The largest endpoint bounds every source and every target, and is one of
/// them when there is an edge; so one past it, the node count of a citation
/// graph, is the least count that leaves no endpoint out of range.
pub proof fn lemma_node_count_covers_endpoints(edges: Seq<(u32, u32)>)
    ensures
        forall|i: int| 0 <= i < edges.len() ==> (#[trigger] edges[i]).0 <= max_endpoint(edges) && edges[i].1
            <= max_endpoint(edges),
        edges.len() == 0 ==> max_endpoint(edges) == 0,
        edges.len() > 0 ==> exists|i: int|
            0 <= i < edges.len() && (#[trigger] edges[i].0 == max_endpoint(edges) || edges[i].1 == max_endpoint(
                edges,
            )),
    decreases edges.len(),
{
    if edges.len() > 0 {
        let front = edges.drop_last();
        lemma_node_count_covers_endpoints(front);
        assert forall|i: int| 0 <= i < edges.len() implies (#[trigger] edges[i]).0 <= max_endpoint(edges)
            && edges[i].1 <= max_endpoint(edges) by {
            if i < front.len() {
                assert(edges[i] == front[i]);
            }
        }
        let m = max_endpoint(edges);
        let e = edges.last();
        if e.0 == m || e.1 == m {
            assert(edges[edges.len() - 1] == e);
        } else {
            let j = choose|j: int| 0 <= j < front.len() && (#[trigger] front[j].0 == max_endpoint(front) || front[j].1
                == max_endpoint(front));
            assert(edges[j] == front[j]);
        }
    }
}

proof fn lemma_csv_edges_none(lines: Seq<Seq<char>>, a: int, b: int)
    requires
        1 <= a <= b,
        csv_edges(lines, a) is None,
    ensures
        csv_edges(lines, b) is None,
    decreases b - a,
{
    if a < b {
        lemma_csv_edges_none(lines, a, b - 1);
    }
}

proof fn lemma_csv_rare_none(lines: Seq<Seq<char>>, max: nat, a: int, b: int)
    requires
        1 <= a <= b,
        csv_rare(lines, max, a) is None,
    ensures
        csv_rare(lines, max, b) is None,
    decreases b - a,
{
    if a < b {
        lemma_csv_rare_none(lines, max, a, b - 1);
    }
}

/// The rare ids of a citation-count list (`id,count` per line after a
/// header): the ids whose count is at most `rare_citation_max`, a count that
/// is not a number counting as 0; `None` when an id is not a 32-bit unsigned
/// number.
pub fn citation_rare(text: &str, rare_citation_max: usize) -> (r: Option<Vec<u32>>)
    ensures
        match csv_rare(text_lines(text@), rare_citation_max as nat, text_lines(text@).len() as int) {
            Some(ids) => r matches Some(x) && x@ == ids,
            None => r is None,
        },
{
    let lines = split_lines(text);
    let ghost ls = string_views(lines@);
    let mut rare: Vec<u32> = Vec::new();
    let mut i: usize = 0;
    while i < lines.len()
        invariant
            i <= lines.len(),
            ls == string_views(lines@),
            ls == text_lines(text@),
            csv_rare(ls, rare_citation_max as nat, i as int) == Some(rare@),
        decreases lines.len() - i,
    {
        assert(ls[i as int] == lines@[i as int]@);
        if i == 0 {
            i = i + 1;
            continue;
        }
        let fields = split_fields(lines[i].as_str(), ',');
        if fields.len() != 2 {
            i = i + 1;
            continue;
        }
        let ghost fv = string_views(fields@);
        assert(fv[0] == fields@[0]@ && fv[1] == fields@[1]@);
        assert(split_on(ls[i as int], ',') == fv);
        let f0: &str = fields[0].as_str();
        let f1: &str = fields[1].as_str();
        assert(f0@ == fv[0] && f1@ == fv[1]);
        let id = match parse_decimal(f0, 0xffff_ffff) {
            Some(v) => v as u32,
            None => {
                proof {
                    assert(parse_unsigned(fv[0], u32::MAX as int) is None);
                    assert(csv_rare(ls, rare_citation_max as nat, i as int + 1) is None);
                    lemma_csv_rare_none(ls, rare_citation_max as nat, i as int + 1, lines.len() as int);
                }
                return None;
            },
        };
        assert(parse_unsigned(fv[0], u32::MAX as int) == Some(id as int));
        assert((usize::MAX as u64) as int == usize::MAX as int);
        let c: usize = match parse_decimal(f1, usize::MAX as u64) {
            Some(v) => v as usize,
            None => 0,
        };
        assert(c == (match parse_unsigned(fv[1], usize::MAX as int) {
            Some(c) => c,
            None => 0,
        }));
        if c <= rare_citation_max {
            rare.push(id);
        }
        assert(csv_rare(ls, rare_citation_max as nat, i as int + 1) == Some(rare@));
        i = i + 1;
    }
    Some(rare)
}

/// A log hit as plain values: client, resource and status code.
pub open spec fn hit_view(h: (String, String, u16)) -> (Seq<char>, Seq<char>, u16) {
    (h.0@, h.1@, h.2)
}

/// The node names of the hits in order: `ip:` and the client, then `res:` and
/// the resource, hit by hit.
pub open spec fn hit_names(hits: Seq<(Seq<char>, Seq<char>, u16)>) -> Seq<Seq<char>> {
    Seq::new(
        2 * hits.len(),
        |k: int|
            if k % 2 == 0 {
                "ip:"@ + hits[k / 2].0
            } else {
                "res:"@ + hits[k / 2].1
            },
    )
}

/// The id of a node name among the hits' nodes.
pub open spec fn hit_node_id(hits: Seq<(Seq<char>, Seq<char>, u16)>, name: Seq<char>) -> u32 {
    match key_index(unique_keys(hit_names(hits), (2 * hits.len()) as int), name) {
        Some(i) => i as u32,
        None => 0,
    }
}

/// The resources, among the first `m` hits, answered with one of `codes`
/// (listed hit by hit; a resource may repeat).
pub open spec fn rare_resources(hits: Seq<(Seq<char>, Seq<char>, u16)>, codes: Seq<u16>, m: int) -> Seq<u32>
    decreases m,
{
    if m <= 0 {
        Seq::empty()
    } else {
        let prev = rare_resources(hits, codes, m - 1);
        if codes.contains(hits[m - 1].2) {
            prev.push(hit_node_id(hits, "res:"@ + hits[m - 1].1))
        } else {
            prev
        }
    }
}

fn prefixed(prefix: &str, name: &String) -> (r: String)
    ensures
        r@ == prefix@ + name@,
{
    let mut r = String::from_str(prefix);
    r.append(name.as_str());
    r
}

/// The graph of an access log: clients and resources numbered in order of
/// first appearance (a client as `ip:` and its address, a resource as `res:`
/// and its path), one edge per hit from client to resource, and as rare
/// ground truth the resources of hits whose status is one of `rare_codes`.
pub fn log_graph(hits: &Vec<(String, String, u16)>, rare_codes: &Vec<u16>) -> (g: (usize, Vec<(u32, u32)>, Vec<u32>))
    requires
        2 * hits.len() < 0xffff_ffff,
    ensures
        g.0 == unique_keys(
            hit_names(hits@.map_values(|h: (String, String, u16)| hit_view(h))),
            2 * hits.len(),
        ).len(),
        g.1@ == Seq::new(
            hits.len() as nat,
            |i: int|
                {
                    let hv = hits@.map_values(|h: (String, String, u16)| hit_view(h));
                    (hit_node_id(hv, "ip:"@ + hv[i].0), hit_node_id(hv, "res:"@ + hv[i].1))
                },
        ),
        g.2@ == rare_resources(
            hits@.map_values(|h: (String, String, u16)| hit_view(h)),
            rare_codes@,
            hits.len() as int,
        ),
{
    let ghost hv = hits@.map_values(|h: (String, String, u16)| hit_view(h));
    let ghost names = hit_names(hv);
    let ghost all = unique_keys(names, 2 * hits.len());
    let mut ids: StringHashMap<u32> = StringHashMap::new();
    let mut next: u32 = 0;
    let ghost mut uniq: Seq<Seq<char>> = Seq::empty();
    let mut edge_keys: Vec<(String, String)> = Vec::new();
    let mut i: usize = 0;
    while i < hits.len()
        invariant
            i <= hits.len(),
            2 * hits.len() < 0xffff_ffff,
            hv == hits@.map_values(|h: (String, String, u16)| hit_view(h)),
            names == hit_names(hv),
            uniq == unique_keys(names, 2 * i),
            next == uniq.len(),
            edge_keys.len() == i,
            forall|x: int| 0 <= x < i ==> (#[trigger] edge_keys@[x]).0@ == names[2 * x] && edge_keys@[x].1@ == names[2 * x + 1],
            forall|k: Seq<char>| #[trigger] ids@.contains_key(k) <==> uniq.contains(k),
            forall|k: Seq<char>| #[trigger] ids@.contains_key(k) ==> key_index(uniq, k) == Some(ids@[k] as int),
        decreases hits.len() - i,
    {
        proof {
            lemma_unique_keys_facts(names, 2 * i);
        }
        assert(hv[i as int] == hit_view(hits@[i as int]));
        let client = prefixed("ip:", &hits[i].0);
        let resource = prefixed("res:", &hits[i].1);
        assert(names[2 * i] == client@);
        assert(names[2 * i + 1] == resource@);
        let Ghost(u1) = register(&mut ids, &mut next, &client, Ghost(uniq));
        proof {
            uniq = u1;
            lemma_unique_keys_facts(names, 2 * i + 1);
        }
        let Ghost(u2) = register(&mut ids, &mut next, &resource, Ghost(uniq));
        proof {
            uniq = u2;
        }
        edge_keys.push((client, resource));
        i = i + 1;
    }
    proof {
        lemma_unique_keys_facts(names, 2 * hits.len() as int);
    }
    let mut edges: Vec<(u32, u32)> = Vec::new();
    let mut rare: Vec<u32> = Vec::new();
    let mut j: usize = 0;
    while j < hits.len()
        invariant
            j <= hits.len(),
            hv == hits@.map_values(|h: (String, String, u16)| hit_view(h)),
            names == hit_names(hv),
            uniq == unique_keys(names, 2 * hits.len()),
            edge_keys.len() == hits.len(),
            forall|x: int| 0 <= x < hits.len() ==> (#[trigger] edge_keys@[x]).0@ == names[2 * x] && edge_keys@[x].1@ == names[2 * x + 1],
            forall|k: Seq<char>| uniq.contains(k) <==> exists|x: int| 0 <= x < names.len() && names[x] == k,
            forall|k: Seq<char>| #[trigger] ids@.contains_key(k) <==> uniq.contains(k),
            forall|k: Seq<char>| #[trigger] ids@.contains_key(k) ==> key_index(uniq, k) == Some(ids@[k] as int),
            edges@ == Seq::new(
                j as nat,
                |x: int| (hit_node_id(hv, "ip:"@ + hv[x].0), hit_node_id(hv, "res:"@ + hv[x].1)),
            ),
            rare@ == rare_resources(hv, rare_codes@, j as int),
        decreases hits.len() - j,
    {
        let ck = &edge_keys[j].0;
        let rk = &edge_keys[j].1;
        assert(names[2 * j] == ck@);
        assert(names[2 * j + 1] == rk@);
        assert(names[2 * j] == "ip:"@ + hv[j as int].0);
        assert(names[2 * j + 1] == "res:"@ + hv[j as int].1);
        let cu: u32 = match ids.get(ck.as_str()) {
            Some(v) => *v,
            None => 0,
        };
        let ru: u32 = match ids.get(rk.as_str()) {
            Some(v) => *v,
            None => 0,
        };
        assert(cu == hit_node_id(hv, "ip:"@ + hv[j as int].0));
        assert(ru == hit_node_id(hv, "res:"@ + hv[j as int].1));
        edges.push((cu, ru));
        let status = hits[j].2;
        let mut hit_rare = false;
        let mut k: usize = 0;
        while k < rare_codes.len()
            invariant
                k <= rare_codes.len(),
                hit_rare == rare_codes@.take(k as int).contains(status),
            decreases rare_codes.len() - k,
        {
            let ghost before = rare_codes@.take(k as int);
            let ghost after = rare_codes@.take(k + 1);
            assert(after =~= before.push(rare_codes@[k as int]));
            if rare_codes[k] == status {
                hit_rare = true;
                assert(after[k as int] == status);
            } else {
                proof {
                    if after.contains(status) {
                        let q = choose|q: int| 0 <= q < after.len() && after[q] == status;
                        assert(before[q] == status);
                    }
                    if before.contains(status) {
                        let q = choose|q: int| 0 <= q < before.len() && before[q] == status;
                        assert(after[q] == status);
                    }
                }
            }
            k = k + 1;
        }
        assert(rare_codes@.take(rare_codes.len() as int) =~= rare_codes@);
        assert(hv[j as int].2 == status);
        if hit_rare {
            rare.push(ru);
        }
        j = j + 1;
        assert(edges@ =~= Seq::new(
            j as nat,
            |x: int| (hit_node_id(hv, "ip:"@ + hv[x].0), hit_node_id(hv, "res:"@ + hv[x].1)),
        ));
    }
    (next as usize, edges, rare)
}

/// What the access-log pattern captures on a line, if it matches: the
/// client (the first field), the requested path of a GET, POST or HEAD
/// request, and the status digits after the quoted request.
pub uninterp spec fn access_captures(line: Seq<char>) -> Option<(Seq<char>, Seq<char>, Seq<char>)>;

/// The status of a hit: the captured digits as a `u16`, or 0 when they do
/// not parse as one.
pub open spec fn status_of(s: Seq<char>) -> u16 {
    match parse_unsigned(s, 65535) {
        Some(v) => v as u16,
        None => 0,
    }
}

/// The hits among the first `m` lines: one for each line the access-log
/// pattern matches.
pub open spec fn access_hits_upto(lines: Seq<Seq<char>>, m: int) -> Seq<(Seq<char>, Seq<char>, u16)>
    decreases m,
{
    if m <= 0 {
        Seq::empty()
    } else {
        let prev = access_hits_upto(lines, m - 1);
        match access_captures(lines[m - 1]) {
            Some(c) => prev.push((c.0, c.1, status_of(c.2))),
            None => prev,
        }
    }
}

/// `Regex::new` of the access-log pattern; the pattern is a valid constant,
/// so the `unwrap` never panics. Nothing is stated of the compiled value.
#[verifier::external_body]
fn access_rule() -> Regex {
    Regex::new(r#"^(\S+) .* "(?:GET|POST|HEAD) (\S+) .*" (\d+) "#).unwrap()
}

/// The compiled access-log pattern.
struct AccessLine {
    re: Regex,
}

impl AccessLine {
    /// `Regex::captures` of the access-log pattern, its three groups taken
    /// as strings; claimed: the result is `access_captures` of the line (the
    /// field holds the access-log pattern, as only `access_hits` builds one).
    #[verifier::external_body]
    fn captures_of(&self, line: &str) -> (r: Option<(String, String, String)>)
        ensures
            match r {
                Some(c) => access_captures(line@) == Some((c.0@, c.1@, c.2@)),
                None => access_captures(line@) is None,
            },
    {
        match self.re.captures(line) {
            Some(cap) => Some((cap[1].to_string(), cap[2].to_string(), cap[3].to_string())),
            None => None,
        }
    }
}

/// The hits of an access log: client, path and status of every line that
/// the access-log pattern matches, in line order.
pub fn access_hits(text: &str) -> (hits: Vec<(String, String, u16)>)
    ensures
        hits@.map_values(|h: (String, String, u16)| hit_view(h)) == access_hits_upto(
            text_lines(text@),
            text_lines(text@).len() as int,
        ),
{
    let rule = AccessLine { re: access_rule() };
    let lines = split_lines(text);
    let ghost ls = text_lines(text@);
    let mut hits: Vec<(String, String, u16)> = Vec::new();
    let mut i: usize = 0;
    while i < lines.len()
        invariant
            i <= lines.len(),
            string_views(lines@) == ls,
            ls == text_lines(text@),
            hits@.map_values(|h: (String, String, u16)| hit_view(h)) == access_hits_upto(ls, i as int),
        decreases lines.len() - i,
    {
        assert(ls[i as int] == lines@[i as int]@);
        let ghost before = hits@;
        match rule.captures_of(lines[i].as_str()) {
            Some(c) => {
                let status: u16 = match parse_decimal(c.2.as_str(), 65535) {
                    Some(v) => v as u16,
                    None => 0,
                };
                hits.push((c.0, c.1, status));
                assert(hits@.map_values(|h: (String, String, u16)| hit_view(h)) =~= before.map_values(
                    |h: (String, String, u16)| hit_view(h),
                ).push(hit_view(hits@[before.len() as int])));
            },
            None => {},
        }
        i = i + 1;
    }
    hits
}

/// The graph of an access log given as text: its hits, then `log_graph`;
/// `None` when there are too many hits for 32-bit node ids.
pub fn access_log_graph(text: &str, rare_codes: &Vec<u16>) -> (g: Option<(usize, Vec<(u32, u32)>, Vec<u32>)>)
    ensures
        ({
            let hv = access_hits_upto(text_lines(text@), text_lines(text@).len() as int);
            match g {
                Some(x) => {
                    &&& 2 * hv.len() < 0xffff_ffff
                    &&& x.0 == unique_keys(hit_names(hv), (2 * hv.len()) as int).len()
                    &&& x.1@ == Seq::new(
                        hv.len(),
                        |i: int| (hit_node_id(hv, "ip:"@ + hv[i].0), hit_node_id(hv, "res:"@ + hv[i].1)),
                    )
                    &&& x.2@ == rare_resources(hv, rare_codes@, hv.len() as int)
                },
                None => 2 * hv.len() >= 0xffff_ffff,
            }
        }),
{
    let hits = access_hits(text);
    if hits.len() >= 0x8000_0000 {
        return None;
    }
    Some(log_graph(&hits, rare_codes))
}

} // verus!
