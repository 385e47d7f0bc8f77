use diffscope::graph::Relation;
use diffscope::query::graph::{affinity, relations, renderings, Renderings};

#[test]
fn a_render_list_is_normalized_named_and_bounded() {
    let asked = renderings(&vec!["mermaid".to_owned(), "diff".to_owned(), "diff".to_owned()])
        .expect("both renderings exist");
    assert_eq!(
        asked,
        Renderings {
            diff: true,
            mermaid: true
        }
    );
    // Canonical order, so asking in the other order echoes the same list.
    assert_eq!(asked.asked(), ["diff", "mermaid"]);
    assert_eq!(
        renderings(&vec![]).expect("nothing asked for"),
        Renderings::default()
    );
    let error =
        renderings(&vec!["svg".to_owned()]).expect_err("this version renders no such document");
    assert!(
        error
            .message
            .contains("`render` must be one of diff, mermaid"),
        "{}",
        error.message
    );
}

#[test]
fn a_near_miss_path_ranks_the_file_it_meant_first() {
    let requested = "src/style/cssVars.js";
    let meant = "src/style/cssVars.ts";
    let elsewhere = "packages/x/src/style/cssVars.ts";
    let other = "src/app.ts";
    // A stale extension is a near miss: the file it names comes first.
    assert!(affinity(requested, meant) > affinity(requested, other));
    // So is the right name under another directory.
    assert!(affinity(requested, elsewhere) > affinity(requested, other));
    // A path equal to the requested one ranks above every near miss.
    assert!(affinity(requested, requested) > affinity(requested, meant));
}

#[test]
fn a_relation_list_is_normalized_to_the_supported_order() {
    let named = vec![
        "tested_by".to_owned(),
        "calls".to_owned(),
        "imports".to_owned(),
        "imports".to_owned(),
    ];
    assert_eq!(
        relations(&named).expect("every named relation is supported"),
        vec![Relation::Imports, Relation::TestedBy, Relation::Calls]
    );
    // An empty list is the documented default, not an empty graph.
    assert_eq!(
        relations(&vec![]).expect("the default is every supported relation"),
        Relation::supported()
    );
}

#[test]
fn an_unsupported_relation_is_rejected_by_name() {
    let error =
        relations(&vec!["extends".to_owned()]).expect_err("this version resolves no extends edge");
    assert!(error.message.contains("`relations`"), "{}", error.message);
    assert!(
        error
            .message
            .contains("imports, tested_by, calls, contains"),
        "{}",
        error.message
    );
    assert!(error.message.contains("extends"), "{}", error.message);
}
