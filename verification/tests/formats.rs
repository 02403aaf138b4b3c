use cgb_kdf::datasets::{
    access_hits, citation_edges, citation_rare, log_graph, triple_graph, tsv_rows,
};
use cgb_kdf::formats::{parse_decimal, split_fields, split_lines};

fn s(x: &str) -> String {
    x.to_string()
}

#[test]
fn fields_keep_empty_pieces() {
    assert_eq!(split_fields("a\tb\t\tc", '\t'), vec![s("a"), s("b"), s(""), s("c")]);
    assert_eq!(split_fields("", ','), vec![s("")]);
    assert_eq!(split_fields(",", ','), vec![s(""), s("")]);
    let line = "x,y,,z";
    let expected: Vec<String> = line.split(',').map(|p| p.to_string()).collect();
    assert_eq!(split_fields(line, ','), expected);
}

#[test]
fn lines_follow_std() {
    for text in ["a\r\nb\n\nc\r", "", "x\n", "\n", "one", "a\n\r\nb", "ü\nß\r\n"] {
        let expected: Vec<String> = text.lines().map(|l| l.to_string()).collect();
        assert_eq!(split_lines(text), expected, "text {:?}", text);
    }
}

#[test]
fn decimal_parsing_follows_std() {
    for text in ["+42", "42", "", "+", "-1", "4294967295", "4294967296", " 1", "007", "1a", "++1"] {
        let expected = text.parse::<u32>().ok().map(|v| v as u64);
        assert_eq!(parse_decimal(text, 0xffff_ffff), expected, "text {:?}", text);
    }
    assert_eq!(parse_decimal("42", 41), None);
    assert_eq!(parse_decimal("18446744073709551615", u64::MAX), Some(u64::MAX));
    assert_eq!(parse_decimal("18446744073709551616", u64::MAX), None);
}

#[test]
fn triples_from_tab_separated_lines() {
    let rows = tsv_rows("h1\tr1\tt1\nbad line\nh2\tr2\th1\n\ta\tb\tc\n");
    assert_eq!(
        rows,
        vec![(s("h1"), s("r1"), s("t1")), (s("h2"), s("r2"), s("h1"))]
    );
}

#[test]
fn triple_graph_ids_edges_and_rare() {
    let rows = vec![(s("a"), s("r1"), s("b")), (s("b"), s("r2"), s("c")), (s("a"), s("r1"), s("c"))];
    let (n, edges, rare) = triple_graph(&rows, 1);
    assert_eq!(n, 3);
    assert_eq!(edges, vec![(0, 1), (1, 2), (0, 2)]);
    assert_eq!(rare, vec![1, 2]);
    let (_, _, rare2) = triple_graph(&rows, 2);
    assert_eq!(rare2, vec![0, 1, 1, 2, 0, 2]);
    let (n0, e0, r0) = triple_graph(&vec![], 5);
    assert_eq!((n0, e0.len(), r0.len()), (0, 0, 0));
}

#[test]
fn citation_lists() {
    assert_eq!(citation_edges("source,target\n0,1\n2,5\nbad\n"), Some((vec![(0, 1), (2, 5)], 6)));
    assert_eq!(citation_edges("source,target\nx,1\n"), None);
    assert_eq!(citation_edges("0,9\n"), Some((vec![], 1)));
    assert_eq!(citation_rare("id,c\n1,0\n2,10\n3,abc\n", 5), Some(vec![1, 3]));
    assert_eq!(citation_rare("id,c\nz,1\n", 5), None);
}

#[test]
fn access_log_graph() {
    let hits = vec![
        (s("1.2.3.4"), s("/a"), 200u16),
        (s("5.6.7.8"), s("/b"), 404),
        (s("1.2.3.4"), s("/b"), 500),
        (s("/a"), s("1.2.3.4"), 200),
    ];
    let (n, edges, rare) = log_graph(&hits, &vec![404, 500]);
    // ip:1.2.3.4 = 0, res:/a = 1, ip:5.6.7.8 = 2, res:/b = 3, ip:/a = 4, res:1.2.3.4 = 5
    assert_eq!(n, 6);
    assert_eq!(edges, vec![(0, 1), (2, 3), (0, 3), (4, 5)]);
    assert_eq!(rare, vec![3, 3]);
}

#[test]
fn access_lines_are_parsed() {
    let text = "host1 - - [01/Jul/1995] \"GET /a.html HTTP/1.0\" 200 1839\r\n\
garbage line\n\
host2 - - [01/Jul/1995] \"POST /b HTTP/1.0\" 404 -\n\
host3 - - [01/Jul/1995] \"PUT /c HTTP/1.0\" 200 10\n\
host1 - - [01/Jul/1995] \"HEAD /b HTTP/1.0\" 99999 0";
    let hits = access_hits(text);
    assert_eq!(
        hits,
        vec![
            ("host1".to_string(), "/a.html".to_string(), 200),
            ("host2".to_string(), "/b".to_string(), 404),
            ("host1".to_string(), "/b".to_string(), 0),
        ]
    );
    let (n, edges, rare) = cgb_kdf::datasets::access_log_graph(text, &vec![404]).unwrap();
    // ip:host1, res:/a.html, ip:host2, res:/b
    assert_eq!(n, 4);
    assert_eq!(edges, vec![(0, 1), (2, 3), (0, 3)]);
    assert_eq!(rare, vec![3]);
}
