use cgb_kdf::vault::{download_instructions, extract_wikilinks, link_graph, note_table, read_count};

fn s(x: &str) -> String {
    x.to_string()
}

#[test]
fn notes_registered_once_by_lower_case_name() {
    let table = note_table(&vec![s("Alpha"), s("beta"), s("ALPHA"), s("Gamma")]);
    assert_eq!(table, vec![s("alpha"), s("beta"), s("gamma")]);
}

#[test]
fn read_limits() {
    assert_eq!(read_count(None, 7), 7);
    assert_eq!(read_count(Some(3), 7), 3);
    assert_eq!(read_count(Some(30), 7), 7);
}

#[test]
fn links_become_distinct_edges() {
    let table = note_table(&vec![s("Alpha"), s("Beta"), s("Gamma"), s("Delta")]);
    let reads = vec![
        (s("Alpha"), vec![s("Beta"), s("beta.md"), s("Alpha"), s("Missing"), s(" Gamma ")]),
        (s("Beta"), vec![s("Gamma")]),
        (s("Nowhere"), vec![s("Delta")]),
    ];
    let (edges, rare) = link_graph(&table, &reads, 1);
    assert_eq!(edges, vec![(0, 1), (0, 2), (1, 2)]);
    // Beta has one incoming link, Gamma two, Delta none
    assert_eq!(rare, vec![1]);
    let (_, rare2) = link_graph(&table, &reads, 2);
    assert_eq!(rare2, vec![1, 2]);
}

#[test]
fn large_rare_limits_are_not_truncated() {
    let table = note_table(&vec![s("a"), s("b")]);
    let reads = vec![(s("a"), vec![s("b")])];
    let (_, rare) = link_graph(&table, &reads, (1usize << 32) + 1);
    assert_eq!(rare, vec![1]);
    let (_, rare) = link_graph(&table, &reads, 1usize << 32);
    assert_eq!(rare, vec![1]);
    let (_, rare) = link_graph(&table, &reads, usize::MAX);
    assert_eq!(rare, vec![1]);
    let (_, none) = link_graph(&table, &reads, 0);
    assert!(none.is_empty());
}

#[test]
fn instructions_name_the_datasets() {
    let text = download_instructions();
    assert!(text.contains("fb15k-237"));
    assert!(text.contains("ogbn-arxiv"));
    assert!(text.contains("nasa-http"));
}

#[test]
fn wikilinks_extracted() {
    let text = "See [[Alpha]] and [[Beta|beta alias]] and [[Gamma#section]]";
    let links = extract_wikilinks(text);
    assert_eq!(links, vec!["Alpha".to_string(), "Beta".to_string(), "Gamma".to_string()]);
}

#[test]
fn wikilink_edge_cases() {
    assert!(extract_wikilinks("[[]] [[ ]] [[|x]] no links").is_empty());
    assert_eq!(extract_wikilinks("[[[x]]"), vec![s("x")]);
    assert!(extract_wikilinks("[[a|b]c]]").is_empty());
    assert_eq!(extract_wikilinks("[[ spaced  ]][[next]]"), vec![s("spaced"), s("next")]);
    assert_eq!(extract_wikilinks("[[a#b|c]] [[d]"), vec![s("a")]);
    assert_eq!(extract_wikilinks("[[multi\nline]]"), vec![s("multi\nline")]);
    assert_eq!(extract_wikilinks("[[ノート]]"), vec![s("ノート")]);
}

fn regex_wikilinks(re: &regex::Regex, text: &str) -> Vec<String> {
    re.captures_iter(text)
        .map(|c| c[1].trim().to_string())
        .filter(|s| !s.is_empty())
        .collect()
}

#[test]
fn wikilinks_agree_with_the_link_pattern() {
    let re = regex::Regex::new(r"\[\[([^\[\]|#]+?)(?:[|#][^\[\]]*)?\]\]").unwrap();
    let alphabet = ['[', ']', '|', '#', 'a', ' ', '\n', 'b'];
    // every string of length up to 5
    let mut count = 0usize;
    for len in 0..=5u32 {
        let total = 8usize.pow(len);
        for code in 0..total {
            let mut c = code;
            let mut text = String::new();
            for _ in 0..len {
                text.push(alphabet[c % 8]);
                c /= 8;
            }
            assert_eq!(extract_wikilinks(&text), regex_wikilinks(&re, &text), "text {:?}", text);
            count += 1;
        }
    }
    assert!(count > 30_000);
    // longer strings from a fixed pseudo-random sequence
    let mut state: u64 = 0x9e3779b97f4a7c15;
    for _ in 0..5_000 {
        let mut text = String::new();
        state ^= state << 13;
        state ^= state >> 7;
        state ^= state << 17;
        let len = 7 + (state % 30) as usize;
        for _ in 0..len {
            state ^= state << 13;
            state ^= state >> 7;
            state ^= state << 17;
            text.push(alphabet[(state % 8) as usize]);
        }
        assert_eq!(extract_wikilinks(&text), regex_wikilinks(&re, &text), "text {:?}", text);
    }
}
