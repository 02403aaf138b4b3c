//! Note vault to link graph: notes get ids by their lower-cased name, wiki
//! links become directed edges, and rarely linked notes form the rare ground
//! truth.

use vstd::prelude::*;
use crate::text::{lowercase, link_key, to_lower, normalize_link_target, trim_spec, trim_str, chars_of, string_of};

verus! {

#[verifier::external_type_specification]
#[verifier::external_body]
pub struct ExPathBuf(std::path::PathBuf);

/// How a vault is turned into a graph.
pub struct ObsidianBuildConfig {
    /// Root directory of the vault.
    pub vault_root: std::path::PathBuf,
    /// Read the contents of at most this many notes (all when `None`).
    pub max_notes: Option<usize>,
    /// A note linked from at least one and at most this many notes is rare.
    pub rare_indegree_max: usize,
}

/// How many notes have their contents read.
pub open spec fn read_limit(max_notes: Option<usize>, total: nat) -> nat {
    match max_notes {
        Some(l) => if l < total {
            l as nat
        } else {
            total
        },
        None => total,
    }
}

/// Number of notes whose contents are read: all of them, or the first `max_notes`.
pub fn read_count(max_notes: Option<usize>, total: usize) -> (n: usize)
    ensures
        n == read_limit(max_notes, total as nat),
{
    match max_notes {
        Some(l) => if l < total {
            l
        } else {
            total
        },
        None => total,
    }
}

/// The views of a sequence of strings.
pub open spec fn string_views(v: Seq<String>) -> Seq<Seq<char>> {
    Seq::new(v.len(), |i: int| v[i]@)
}

/// The first position of `key` in `table`, if it occurs.
pub open spec fn key_index(table: Seq<Seq<char>>, key: Seq<char>) -> Option<int>
    decreases table.len(),
{
    if table.len() == 0 {
        None
    } else {
        match key_index(table.drop_last(), key) {
            Some(i) => Some(i),
            None => if table.last() == key {
                Some(table.len() - 1)
            } else {
                None
            },
        }
    }
}

pub(crate) proof fn lemma_key_index(table: Seq<Seq<char>>, key: Seq<char>)
    ensures
        match key_index(table, key) {
            Some(i) => 0 <= i < table.len() && table[i] == key && forall|j: int|
                0 <= j < i ==> table[j] != key,
            None => forall|j: int| 0 <= j < table.len() ==> table[j] != key,
        },
    decreases table.len(),
{
    if table.len() > 0 {
        let prev = table.drop_last();
        lemma_key_index(prev, key);
        assert forall|j: int| 0 <= j < prev.len() implies prev[j] == table[j] by {}
    }
}

/// Looks a key up in the note table.
fn find_key(table: &Vec<String>, key: &String) -> (r: Option<u32>)
    requires
        table.len() <= 0xffff_ffff,
    ensures
        r == (match key_index(string_views(table@), key@) {
            Some(i) => Some(i as u32),
            None => None,
        }),
{
    let ghost t = string_views(table@);
    proof {
        lemma_key_index(t, key@);
    }
    let mut i: usize = 0;
    while i < table.len()
        invariant
            i <= table.len(),
            table.len() <= 0xffff_ffff,
            t == string_views(table@),
            forall|j: int| 0 <= j < i ==> t[j] != key@,
        decreases table.len() - i,
    {
        if table[i] == *key {
            assert(t[i as int] == key@);
            proof {
                lemma_key_index(t, key@);
                match key_index(t, key@) {
                    Some(q) => {
                        if q < i {
                            assert(t[q] != key@);
                        }
                        if q > i {
                            assert(t[i as int] != key@);
                        }
                    },
                    None => {
                        assert(t[i as int] != key@);
                    },
                }
            }
            return Some(i as u32);
        }
        i = i + 1;
    }
    None
}

/// The distinct keys among the first `m`, in order of first occurrence.
pub open spec fn unique_keys(keys: Seq<Seq<char>>, m: int) -> Seq<Seq<char>>
    decreases m,
{
    if m <= 0 {
        Seq::empty()
    } else {
        let prev = unique_keys(keys, m - 1);
        if prev.contains(keys[m - 1]) {
            prev
        } else {
            prev.push(keys[m - 1])
        }
    }
}

/// The lower-cased names of the notes.
pub open spec fn lowered(names: Seq<String>) -> Seq<Seq<char>> {
    Seq::new(names.len(), |i: int| lowercase(names[i]@))
}

/// The note table: each distinct lower-cased note name once, in order of first
/// occurrence; a note's id is its position.
pub fn note_table(names: &Vec<String>) -> (table: Vec<String>)
    requires
        names.len() <= 0xffff_ffff,
    ensures
        string_views(table@) == unique_keys(lowered(names@), names.len() as int),
{
    let mut table: Vec<String> = Vec::new();
    let ghost keys = lowered(names@);
    let mut i: usize = 0;
    while i < names.len()
        invariant
            i <= names.len(),
            names.len() <= 0xffff_ffff,
            keys == lowered(names@),
            table.len() <= i,
            string_views(table@) == unique_keys(keys, i as int),
        decreases names.len() - i,
    {
        let low = to_lower(names[i].as_str());
        let found = find_key(&table, &low);
        proof {
            lemma_key_index(string_views(table@), low@);
            if string_views(table@).contains(low@) {
                let p = choose|p: int|
                    0 <= p < string_views(table@).len() && string_views(table@)[p] == low@;
            }
        }
        if found.is_none() {
            table.push(low);
        }
        assert(string_views(table@) =~= unique_keys(keys, i + 1));
        i = i + 1;
    }
    table
}

/// The targets that a note links to, in order of first link: a link counts
/// when its key names a note other than the source, and only its first time.
pub open spec fn read_targets(table: Seq<Seq<char>>, src: int, links: Seq<Seq<char>>, m: int) -> Seq<
    u32,
>
    decreases m,
{
    if m <= 0 {
        Seq::empty()
    } else {
        let prev = read_targets(table, src, links, m - 1);
        match key_index(table, link_key(links[m - 1])) {
            Some(d) => if d != src && !prev.contains(d as u32) {
                prev.push(d as u32)
            } else {
                prev
            },
            None => prev,
        }
    }
}

/// A read note as plain values: its name and the raw targets of its links.
pub open spec fn read_view(read: (String, Vec<String>)) -> (Seq<char>, Seq<Seq<char>>) {
    (read.0@, string_views(read.1@))
}

/// The edges contributed by the first `k` read notes; a note whose name is not
/// in the table contributes nothing.
pub open spec fn link_edges(table: Seq<Seq<char>>, reads: Seq<(Seq<char>, Seq<Seq<char>>)>, k: int) -> Seq<
    (u32, u32),
>
    decreases k,
{
    if k <= 0 {
        Seq::empty()
    } else {
        let prev = link_edges(table, reads, k - 1);
        let r = reads[k - 1];
        match key_index(table, lowercase(r.0)) {
            Some(s) => prev + read_targets(table, s, r.1, r.1.len() as int).map_values(
                |d: u32| (s as u32, d),
            ),
            None => prev,
        }
    }
}

/// Number of edges that end at `d`.
pub open spec fn indegree(edges: Seq<(u32, u32)>, d: int) -> nat
    decreases edges.len(),
{
    if edges.len() == 0 {
        0
    } else {
        indegree(edges.drop_last(), d) + (if edges.last().1 as int == d {
            1nat
        } else {
            0nat
        })
    }
}

/// The notes below `m`, in increasing order, linked from at least one and at
/// most `max` notes.
pub open spec fn rare_notes(edges: Seq<(u32, u32)>, max: nat, m: int) -> Seq<u32>
    decreases m,
{
    if m <= 0 {
        Seq::empty()
    } else {
        let prev = rare_notes(edges, max, m - 1);
        let c = indegree(edges, m - 1);
        if 1 <= c && c <= max {
            prev.push((m - 1) as u32)
        } else {
            prev
        }
    }
}

/// Number of link targets over the first `k` read notes.
pub open spec fn total_links(reads: Seq<(Seq<char>, Seq<Seq<char>>)>, k: int) -> nat
    decreases k,
{
    if k <= 0 {
        0
    } else {
        total_links(reads, k - 1) + reads[k - 1].1.len()
    }
}

proof fn lemma_indegree_append(edges: Seq<(u32, u32)>, e: (u32, u32), d: int)
    ensures
        indegree(edges.push(e), d) == indegree(edges, d) + (if e.1 as int == d {
            1nat
        } else {
            0nat
        }),
{
    assert(edges.push(e).drop_last() =~= edges);
}

proof fn lemma_indegree_bound(edges: Seq<(u32, u32)>, d: int)
    ensures
        indegree(edges, d) <= edges.len(),
    decreases edges.len(),
{
    if edges.len() > 0 {
        lemma_indegree_bound(edges.drop_last(), d);
    }
}

proof fn lemma_read_targets_len(table: Seq<Seq<char>>, src: int, links: Seq<Seq<char>>, m: int)
    requires
        0 <= m <= links.len(),
    ensures
        read_targets(table, src, links, m).len() <= m,
    decreases m,
{
    if m > 0 {
        lemma_read_targets_len(table, src, links, m - 1);
    }
}

proof fn lemma_total_links_mono(reads: Seq<(Seq<char>, Seq<Seq<char>>)>, a: int, b: int)
    requires
        0 <= a <= b <= reads.len(),
    ensures
        total_links(reads, a) <= total_links(reads, b),
    decreases b - a,
{
    if a < b {
        lemma_total_links_mono(reads, a, b - 1);
    }
}

/// The edges of one read note, appended to `edges`, with the in-degrees kept.
fn add_read_edges(
    table: &Vec<String>,
    src: u32,
    links: &Vec<String>,
    edges: &mut Vec<(u32, u32)>,
    indeg: &mut Vec<usize>,
)
    requires
        table.len() <= 0xffff_ffff,
        (src as int) < table.len(),
        old(indeg).len() == table.len(),
        forall|d: int| 0 <= d < table.len() ==> #[trigger] old(indeg)[d] == indegree(old(edges)@, d),
        old(edges).len() + links.len() <= usize::MAX,
    ensures
        final(edges)@ == old(edges)@ + read_targets(
            string_views(table@),
            src as int,
            string_views(links@),
            links.len() as int,
        ).map_values(|d: u32| (src, d)),
        final(indeg).len() == table.len(),
        forall|d: int| 0 <= d < table.len() ==> #[trigger] final(indeg)[d] == indegree(final(edges)@, d),
{
    let ghost t = string_views(table@);
    let ghost ls = string_views(links@);
    let ghost start = edges@;
    let mut targets: Vec<u32> = Vec::new();
    let mut j: usize = 0;
    while j < links.len()
        invariant
            j <= links.len(),
            table.len() <= 0xffff_ffff,
            (src as int) < table.len(),
            t == string_views(table@),
            ls == string_views(links@),
            indeg.len() == table.len(),
            start.len() + links.len() <= usize::MAX,
            targets@ == read_targets(t, src as int, ls, j as int),
            targets.len() <= j,
            edges@ == start + targets@.map_values(|d: u32| (src, d)),
            forall|d: int| 0 <= d < table.len() ==> #[trigger] indeg[d] == indegree(edges@, d),
        decreases links.len() - j,
    {
        proof {
            lemma_read_targets_len(t, src as int, ls, j as int);
        }
        let key = normalize_link_target(links[j].as_str());
        assert(ls[j as int] == links@[j as int]@);
        let found = find_key(table, &key);
        proof {
            lemma_key_index(t, key@);
        }
        match found {
            Some(d) => {
                if d != src {
                    let mut seen = false;
                    let mut p: usize = 0;
                    while p < targets.len()
                        invariant
                            p <= targets.len(),
                            seen == targets@.take(p as int).contains(d),
                        decreases targets.len() - p,
                    {
                        let ghost before = targets@.take(p as int);
                        let ghost after = targets@.take(p + 1);
                        assert(after =~= before.push(targets@[p as int]));
                        if targets[p] == d {
                            seen = true;
                            assert(after[p as int] == d);
                        } else {
                            proof {
                                if after.contains(d) {
                                    let q = choose|q: int| 0 <= q < after.len() && after[q] == d;
                                    assert(before[q] == d);
                                }
                                if before.contains(d) {
                                    let q = choose|q: int| 0 <= q < before.len() && before[q] == d;
                                    assert(after[q] == d);
                                }
                            }
                        }
                        p = p + 1;
                    }
                    assert(targets@.take(targets.len() as int) =~= targets@);
                    if !seen {
                        let ghost old_edges = edges@;
                        targets.push(d);
                        edges.push((src, d));
                        proof {
                            assert forall|x: int| 0 <= x < table.len() implies #[trigger] indeg[x]
                                + (if d as int == x {
                                1int
                            } else {
                                0int
                            }) == indegree(edges@, x) by {
                                lemma_indegree_append(old_edges, (src, d), x);
                            }
                            lemma_indegree_bound(old_edges, d as int);
                        }
                        let c = indeg[d as usize];
                        indeg.set(d as usize, c + 1);
                        assert(edges@ =~= start + targets@.map_values(|e: u32| (src, e)));
                    }
                }
            },
            None => {},
        }
        j = j + 1;
    }
}

/// The link graph of a vault: one directed edge from a read note to each
/// distinct other note that it links to, and the notes linked from at least
/// one and at most `rare_indegree_max` notes, in
/// increasing order.
pub fn link_graph(table: &Vec<String>, reads: &Vec<(String, Vec<String>)>, rare_indegree_max: usize) -> (r: (
    Vec<(u32, u32)>,
    Vec<u32>,
))
    requires
        table.len() <= 0xffff_ffff,
        total_links(reads@.map_values(|x: (String, Vec<String>)| read_view(x)), reads.len() as int)
            <= usize::MAX,
    ensures
        r.0@ == link_edges(
            string_views(table@),
            reads@.map_values(|x: (String, Vec<String>)| read_view(x)),
            reads.len() as int,
        ),
        r.1@ == rare_notes(r.0@, rare_indegree_max as nat, table.len() as int),
{
    let ghost t = string_views(table@);
    let ghost rv = reads@.map_values(|x: (String, Vec<String>)| read_view(x));
    let n = table.len();
    let mut indeg: Vec<usize> = Vec::new();
    let mut i: usize = 0;
    while i < n
        invariant
            i <= n,
            n == table.len(),
            indeg.len() == i,
            forall|d: int| 0 <= d < i ==> #[trigger] indeg[d] == 0,
        decreases n - i,
    {
        indeg.push(0);
        i = i + 1;
    }
    let mut edges: Vec<(u32, u32)> = Vec::new();
    let mut k: usize = 0;
    while k < reads.len()
        invariant
            k <= reads.len(),
            n == table.len(),
            table.len() <= 0xffff_ffff,
            t == string_views(table@),
            rv == reads@.map_values(|x: (String, Vec<String>)| read_view(x)),
            total_links(rv, reads.len() as int) <= usize::MAX,
            indeg.len() == n,
            edges@ == link_edges(t, rv, k as int),
            edges.len() <= total_links(rv, k as int),
            forall|d: int| 0 <= d < n ==> #[trigger] indeg[d] == indegree(edges@, d),
        decreases reads.len() - k,
    {
        let name = &reads[k].0;
        let links = &reads[k].1;
        assert(rv[k as int] == read_view(reads@[k as int]));
        let low = to_lower(name.as_str());
        let found = find_key(table, &low);
        proof {
            lemma_total_links_mono(rv, k + 1, reads.len() as int);
        }
        match found {
            Some(src) => {
                proof {
                    lemma_key_index(t, low@);
                }
                add_read_edges(table, src, links, &mut edges, &mut indeg);
                proof {
                    lemma_read_targets_len(t, src as int, string_views(links@), links.len() as int);
                }
            },
            None => {},
        }
        k = k + 1;
    }
    let mut rare: Vec<u32> = Vec::new();
    let mut u: usize = 0;
    while u < n
        invariant
            u <= n,
            n == table.len(),
            n <= 0xffff_ffff,
            indeg.len() == n,
            forall|d: int| 0 <= d < n ==> #[trigger] indeg[d] == indegree(edges@, d),
            rare@ == rare_notes(edges@, rare_indegree_max as nat, u as int),
        decreases n - u,
    {
        let c = indeg[u];
        if c >= 1 && c <= rare_indegree_max {
            rare.push(u as u32);
        }
        u = u + 1;
    }
    (edges, rare)
}

proof fn lemma_read_targets_valid(table: Seq<Seq<char>>, src: int, links: Seq<Seq<char>>, m: int)
    requires
        table.len() <= 0xffff_ffff,
    ensures
        forall|i: int|
            0 <= i < read_targets(table, src, links, m).len() ==> (#[trigger] read_targets(
                table,
                src,
                links,
                m,
            )[i] as int) < table.len() && read_targets(table, src, links, m)[i] as int != src,
    decreases m,
{
    if m > 0 {
        lemma_read_targets_valid(table, src, links, m - 1);
        lemma_key_index(table, link_key(links[m - 1]));
        let prev = read_targets(table, src, links, m - 1);
        let cur = read_targets(table, src, links, m);
        match key_index(table, link_key(links[m - 1])) {
            Some(d) => {
                assert((d as u32) as int == d);
                assert forall|i: int| 0 <= i < cur.len() implies (#[trigger] cur[i] as int)
                    < table.len() && cur[i] as int != src by {
                    if i < prev.len() {
                        assert(cur[i] == prev[i]);
                    }
                }
            },
            None => {},
        }
    }
}

/// Every link edge joins two distinct notes of the table: no note links to
/// itself, and both ends are registered notes.
pub proof fn lemma_link_edges_valid(
    table: Seq<Seq<char>>,
    reads: Seq<(Seq<char>, Seq<Seq<char>>)>,
    k: int,
)
    requires
        table.len() <= 0xffff_ffff,
        0 <= k <= reads.len(),
    ensures
        forall|i: int|
            0 <= i < link_edges(table, reads, k).len() ==> (#[trigger] link_edges(table, reads, k)[i]).0
                != link_edges(table, reads, k)[i].1 && (link_edges(table, reads, k)[i].0 as int)
                < table.len() && (link_edges(table, reads, k)[i].1 as int) < table.len(),
    decreases k,
{
    if k > 0 {
        lemma_link_edges_valid(table, reads, k - 1);
        let prev = link_edges(table, reads, k - 1);
        let r = reads[k - 1];
        lemma_key_index(table, lowercase(r.0));
        match key_index(table, lowercase(r.0)) {
            Some(s) => {
                let ts = read_targets(table, s, r.1, r.1.len() as int);
                lemma_read_targets_valid(table, s, r.1, r.1.len() as int);
                let cur = link_edges(table, reads, k);
                assert forall|i: int| 0 <= i < cur.len() implies (#[trigger] cur[i]).0 != cur[i].1
                    && (cur[i].0 as int) < table.len() && (cur[i].1 as int) < table.len() by {
                    if i >= prev.len() {
                        assert(cur[i] == (s as u32, ts[i - prev.len()]));
                    } else {
                        assert(cur[i] == prev[i]);
                    }
                }
            },
            None => {},
        }
    }
}

/// A char that may stand in a link target: anything but `[`, `]`, `|` and `#`.
pub open spec fn target_char(c: char) -> bool {
    c != '[' && c != ']' && c != '|' && c != '#'
}

/// The end of the run of target chars that starts at `i`.
pub open spec fn target_run_end(t: Seq<char>, i: int) -> int
    decreases t.len() - i,
{
    if i < 0 || i >= t.len() || !target_char(t[i]) {
        i
    } else {
        target_run_end(t, i + 1)
    }
}

/// The end of the run of chars other than `[` and `]` that starts at `i`.
pub open spec fn plain_run_end(t: Seq<char>, i: int) -> int
    decreases t.len() - i,
{
    if i < 0 || i >= t.len() || t[i] == '[' || t[i] == ']' {
        i
    } else {
        plain_run_end(t, i + 1)
    }
}

/// `]]` starts at `i`.
pub open spec fn closes_at(t: Seq<char>, i: int) -> bool {
    0 <= i && i + 1 < t.len() && t[i] == ']' && t[i + 1] == ']'
}

/// The wiki link that starts at `p`, if one does: `[[target]]`, or
/// `[[target|alias]]` / `[[target#section]]` where the part after `|` or `#`
/// holds no brackets. The result is where the target starts and ends and
/// where the link ends.
pub open spec fn link_at(t: Seq<char>, p: int) -> Option<(int, int, int)> {
    if 0 <= p && p + 1 < t.len() && t[p] == '[' && t[p + 1] == '[' {
        let a = p + 2;
        let e = target_run_end(t, a);
        if e == a {
            None
        } else if closes_at(t, e) {
            Some((a, e, e + 2))
        } else if e < t.len() && (t[e] == '|' || t[e] == '#') && closes_at(
            t,
            plain_run_end(t, e + 1),
        ) {
            Some((a, e, plain_run_end(t, e + 1) + 2))
        } else {
            None
        }
    } else {
        None
    }
}

/// The link targets found scanning from `p`, each trimmed, the empty ones left
/// out; after a link the scan goes on behind it.
pub open spec fn links_from(t: Seq<char>, p: int) -> Seq<Seq<char>>
    decreases t.len() - p,
{
    if p < 0 || p >= t.len() {
        Seq::empty()
    } else {
        match link_at(t, p) {
            Some((a, e, m)) => {
                if m > p {
                    let target = trim_spec(t.subrange(a, e));
                    if target.len() > 0 {
                        seq![target] + links_from(t, m)
                    } else {
                        links_from(t, m)
                    }
                } else {
                    Seq::empty()
                }
            },
            None => links_from(t, p + 1),
        }
    }
}

proof fn lemma_run_ends(t: Seq<char>, i: int)
    requires
        0 <= i <= t.len(),
    ensures
        i <= target_run_end(t, i) <= t.len(),
        i <= plain_run_end(t, i) <= t.len(),
        forall|j: int| i <= j < target_run_end(t, i) ==> target_char(#[trigger] t[j]),
    decreases t.len() - i,
{
    if i < t.len() {
        lemma_run_ends(t, i + 1);
    }
}

fn target_run_end_exec(t: &Vec<char>, i: usize) -> (e: usize)
    requires
        i <= t.len(),
    ensures
        e == target_run_end(t@, i as int),
{
    let mut j = i;
    while j < t.len() && t[j] != '[' && t[j] != ']' && t[j] != '|' && t[j] != '#'
        invariant
            i <= j <= t.len(),
            target_run_end(t@, i as int) == target_run_end(t@, j as int),
        decreases t.len() - j,
    {
        j = j + 1;
    }
    j
}

fn plain_run_end_exec(t: &Vec<char>, i: usize) -> (e: usize)
    requires
        i <= t.len(),
    ensures
        e == plain_run_end(t@, i as int),
{
    let mut j = i;
    while j < t.len() && t[j] != '[' && t[j] != ']'
        invariant
            i <= j <= t.len(),
            plain_run_end(t@, i as int) == plain_run_end(t@, j as int),
        decreases t.len() - j,
    {
        j = j + 1;
    }
    j
}

fn closes_at_exec(t: &Vec<char>, i: usize) -> (b: bool)
    ensures
        b == closes_at(t@, i as int),
{
    i < t.len() && i + 1 < t.len() && t[i] == ']' && t[i + 1] == ']'
}

fn link_at_exec(t: &Vec<char>, p: usize) -> (r: Option<(usize, usize, usize)>)
    requires
        t.len() < usize::MAX - 2,
    ensures
        r matches Some(x) ==> link_at(t@, p as int) == Some((x.0 as int, x.1 as int, x.2 as int)),
        r is None ==> link_at(t@, p as int) is None,
{
    if p < t.len() && p + 1 < t.len() && t[p] == '[' && t[p + 1] == '[' {
        let a = p + 2;
        let e = target_run_end_exec(t, a);
        proof {
            lemma_run_ends(t@, a as int);
        }
        if e == a {
            None
        } else if closes_at_exec(t, e) {
            Some((a, e, e + 2))
        } else if e < t.len() && (t[e] == '|' || t[e] == '#') {
            proof {
                lemma_run_ends(t@, e + 1);
            }
            let g = plain_run_end_exec(t, e + 1);
            if closes_at_exec(t, g) {
                Some((a, e, g + 2))
            } else {
                None
            }
        } else {
            None
        }
    } else {
        None
    }
}

/// The targets of the wiki links in a text, in order, each trimmed; empty
/// targets are left out.
pub fn extract_wikilinks(text: &str) -> (links: Vec<String>)
    requires
        text@.len() < usize::MAX - 2,
    ensures
        string_views(links@) == links_from(text@, 0),
{
    let t = chars_of(text);
    let n = t.len();
    let mut links: Vec<String> = Vec::new();
    let mut p: usize = 0;
    while p < n
        invariant
            n == t.len(),
            n < usize::MAX - 2,
            t@ == text@,
            p <= n,
            string_views(links@) + links_from(t@, p as int) == links_from(t@, 0),
        decreases n - p,
    {
        let ghost before = string_views(links@);
        match link_at_exec(&t, p) {
            Some((a, e, m)) => {
                proof {
                    lemma_run_ends(t@, a as int);
                    if closes_at(t@, e as int) {
                    } else {
                        lemma_run_ends(t@, e + 1);
                    }
                }
                let raw = string_of(&t, a, e);
                let target = trim_str(raw.as_str());
                if !target.as_str().is_empty() {
                    links.push(target);
                    assert(string_views(links@) =~= before + seq![target@]);
                }
                assert(links_from(t@, p as int) == (if trim_spec(t@.subrange(a as int, e as int)).len() > 0 {
                    seq![trim_spec(t@.subrange(a as int, e as int))] + links_from(t@, m as int)
                } else {
                    links_from(t@, m as int)
                }));
                p = m;
            },
            None => {
                p = p + 1;
            },
        }
    }
    assert(links_from(t@, p as int) =~= Seq::<Seq<char>>::empty());
    assert(string_views(links@) =~= links_from(t@, 0));
    links
}

/// Where the public datasets go and where to get them.
pub open spec fn download_text() -> Seq<char> {
    "
Phase 6 public datasets are NOT redistributed. To enable benchmarks, place:

  benchmarks/real_data/data/fb15k-237/{train,valid,test}.txt
     https://www.microsoft.com/en-us/download/details.aspx?id=52312

  benchmarks/real_data/data/ogbn-arxiv/{edges.csv, citation_count.csv}
     via `ogb` Python package, or mirrored release

  benchmarks/real_data/data/nasa-http/access.log
     https://ita.ee.lbl.gov/html/contrib/NASA-HTTP.html
"@
}

/// Instructions for placing the public datasets, which are not redistributed.
pub fn download_instructions() -> (s: &'static str)
    ensures
        s@ == download_text(),
{
    "
Phase 6 public datasets are NOT redistributed. To enable benchmarks, place:

  benchmarks/real_data/data/fb15k-237/{train,valid,test}.txt
     https://www.microsoft.com/en-us/download/details.aspx?id=52312

  benchmarks/real_data/data/ogbn-arxiv/{edges.csv, citation_count.csv}
     via `ogb` Python package, or mirrored release

  benchmarks/real_data/data/nasa-http/access.log
     https://ita.ee.lbl.gov/html/contrib/NASA-HTTP.html
"
}

} // verus!
