use shoulders_of_giants::dataset::{records_from_csv, records_from_rows};

fn sorted(mut v: Vec<String>) -> Vec<String> {
    v.sort();
    v
}

#[test]
fn records_from_csv_reads_fields_by_position() {
    let text = "abstract,authors,n_citation,references,title,venue,year,id\n\
                Some words,Ann,3,\"['p2', 'p3']\",First paper,V,2001,p1\n\
                ,Bob,0,[],Second paper,V,2002,p2\n";
    let recs = records_from_csv(text.as_bytes()).unwrap();
    assert_eq!(recs.len(), 2);
    assert_eq!(recs[0].id, "p1");
    assert_eq!(recs[0].title, "First paper");
    assert_eq!(recs[0].abstract_text, "Some words");
    assert_eq!(sorted(recs[0].references.clone()), vec!["p2", "p3"]);
    assert_eq!(recs[1].id, "p2");
    assert_eq!(recs[1].abstract_text, "");
    assert!(recs[1].references.is_empty());
}

#[test]
fn records_from_csv_skips_unreadable_rows() {
    let text = "a,b,c,d,e,f,g,h\n1,2,3,[],5,6,7,x\n1,2,3\n1,2,3,[],5,6,7,y\n";
    let recs = records_from_csv(text.as_bytes()).unwrap();
    let ids: Vec<String> = recs.iter().map(|r| r.id.clone()).collect();
    assert_eq!(ids, vec!["x", "y"]);
}

#[test]
fn records_from_csv_of_a_header_alone_is_empty() {
    assert!(records_from_csv(b"a,b,c,d,e,f,g,h\n").unwrap().is_empty());
    assert!(records_from_csv(b"").unwrap().is_empty());
}

#[test]
fn short_rows_are_refused() {
    let text = "a,b,c\n1,2,3\n";
    assert!(records_from_csv(text.as_bytes()).is_none());
    let rows: Vec<Vec<String>> = vec![
        (0..8).map(|i| i.to_string()).collect(),
        vec!["only".to_string()],
    ];
    assert!(records_from_rows(&rows).is_none());
    let rows: Vec<Vec<String>> = vec![vec![
        "abs".to_string(),
        "".to_string(),
        "".to_string(),
        "['r']".to_string(),
        "T".to_string(),
        "".to_string(),
        "".to_string(),
        "id7".to_string(),
    ]];
    let recs = records_from_rows(&rows).unwrap();
    assert_eq!(recs[0].id, "id7");
    assert_eq!(recs[0].title, "T");
    assert_eq!(recs[0].references, vec!["r"]);
}
