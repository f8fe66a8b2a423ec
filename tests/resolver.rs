use fipa::ast::{Import, Module};
use fipa::compiler::{
    find_file, import_candidates, import_uris, join, may_follow_imports, split_results, ParseError,
    Visited,
};

fn module(uris: &[&str]) -> Module {
    Module {
        package: "p".to_string(),
        imports: uris.iter().map(|u| Import { namespace: String::new(), uri: u.to_string() }).collect(),
        interfaces: Vec::new(),
        type_collections: Vec::new(),
    }
}

#[test]
fn registry_takes_each_path_once() {
    let mut v = Visited::new();
    let a = "/x/a.fidl".to_string();
    let b = "/x/b.fidl".to_string();
    assert!(v.try_register(&a));
    assert!(v.try_register(&b));
    assert!(!v.try_register(&a));
    assert!(!v.try_register(&b));
    assert_eq!(v.len(), 2);
    assert!(v.contains(&a));
    assert!(!v.contains(&"/x/c.fidl".to_string()));
}

#[test]
fn joining_paths() {
    assert_eq!(join("/a/b", "c.fidl"), "/a/b/c.fidl");
    assert_eq!(join("/a/b/", "c.fidl"), "/a/b/c.fidl");
    assert_eq!(join("", "c.fidl"), "c.fidl");
}

#[test]
fn candidate_order() {
    let dirs = vec!["/s1".to_string(), "/s2/".to_string()];
    assert_eq!(import_candidates("x.fidl", Some("/here"), &dirs),
        vec!["/here/x.fidl".to_string(), "/s1/x.fidl".to_string(), "/s2/x.fidl".to_string()]);
    assert_eq!(import_candidates("x.fidl", None, &dirs),
        vec!["/s1/x.fidl".to_string(), "/s2/x.fidl".to_string()]);
    assert_eq!(import_candidates("/abs/x.fidl", Some("/here"), &dirs), vec!["/abs/x.fidl".to_string()]);
}

#[test]
fn first_existing_candidate_wins() {
    let dirs = vec!["/s1".to_string(), "/s2".to_string()];
    assert_eq!(find_file("x.fidl", Some("/here"), &dirs, &vec![false, true, true]),
        Some("/s1/x.fidl".to_string()));
    assert_eq!(find_file("x.fidl", Some("/here"), &dirs, &vec![true, true, true]),
        Some("/here/x.fidl".to_string()));
    assert_eq!(find_file("x.fidl", Some("/here"), &dirs, &vec![false, false, false]), None);
    assert_eq!(find_file("/abs/x.fidl", Some("/here"), &dirs, &vec![false]), None);
}

#[test]
fn nesting_budget() {
    assert!(may_follow_imports(&module(&[]), 0));
    assert!(!may_follow_imports(&module(&["a.fidl"]), 0));
    assert!(may_follow_imports(&module(&["a.fidl"]), 1));
}

#[test]
fn chain_of_imports_against_budget() {
    // file k imports file k + 1 for k < 3; the budget passes through after_read and child_jobs.
    let text = |k: usize| -> String {
        if k < 3 { format!("package p{} import model 'f{}.fidl'", k, k + 1) } else { "package last".to_string() }
    };
    let stop = |max: usize| -> Option<usize> {
        let mut budget = max;
        for k in 0..=3usize {
            let file = format!("/f{}.fidl", k);
            match after_read(&file, &None, Ok(text(k)), budget) {
                Err(ParseError::MaxImportNestingReached { file: f, .. }) => {
                    assert_eq!(f, file);
                    return Some(k);
                }
                Err(e) => panic!("unexpected {:?}", e),
                Ok((_, uris)) => {
                    let found: Vec<Option<String>> = uris.iter().map(|u| Some(format!("/{}", u))).collect();
                    let jobs = child_jobs(&file, &uris, &found, budget).unwrap();
                    if let Some(job) = jobs.first() {
                        budget = job.2;
                    }
                }
            }
        }
        None
    };
    assert_eq!(stop(2), Some(2));
    assert_eq!(stop(3), None);
}

#[test]
fn uris_skip_empty() {
    assert_eq!(import_uris(&module(&["a.fidl", "", "b.fidl"])), vec!["a.fidl".to_string(), "b.fidl".to_string()]);
}

#[test]
fn results_are_parted_in_order() {
    let err = ParseError::SyntaxError { file: "/b".to_string(), referenced_by: Some("/a".to_string()) };
    let results = vec![
        Ok((module(&[]), "/a".to_string())),
        Err(err.clone()),
        Ok((module(&["x"]), "/c".to_string())),
    ];
    let (mods, errs) = split_results(results);
    assert_eq!(mods.iter().map(|m| m.1.as_str()).collect::<Vec<_>>(), vec!["/a", "/c"]);
    assert_eq!(errs, vec![err]);
}

use fipa::compiler::{after_read, child_jobs, claim, merge_outcome};

#[test]
fn claim_outcomes() {
    let mut v = Visited::new();
    let by = Some("/root.fidl".to_string());
    assert_eq!(claim(&mut v, &"a.fidl".to_string(), &by, Err("gone".to_string())),
        Err(ParseError::PathError { file: "a.fidl".to_string(), referenced_by: by.clone(), error: "gone".to_string() }));
    assert_eq!(v.len(), 0);
    assert_eq!(claim(&mut v, &"a.fidl".to_string(), &by, Ok("/x/a.fidl".to_string())), Ok(Some("/x/a.fidl".to_string())));
    assert_eq!(claim(&mut v, &"../x/a.fidl".to_string(), &None, Ok("/x/a.fidl".to_string())), Ok(None));
    assert_eq!(v.len(), 1);
}

#[test]
fn claims_in_a_cycle_take_each_file_once() {
    let mut v = Visited::new();
    let order = ["/a", "/b", "/a", "/b", "/c", "/a"];
    let fresh: Vec<bool> = order
        .iter()
        .map(|p| matches!(claim(&mut v, &p.to_string(), &None, Ok(p.to_string())), Ok(Some(_))))
        .collect();
    assert_eq!(fresh, vec![true, true, false, false, true, false]);
    assert_eq!(v.len(), 3);
}

#[test]
fn after_read_outcomes() {
    let f = "/x/a.fidl".to_string();
    let by = Some("/x/root.fidl".to_string());
    assert_eq!(after_read(&f, &by, Err("denied".to_string()), 3),
        Err(ParseError::IoError { file: f.clone(), referenced_by: by.clone(), error: "denied".to_string() }));
    assert_eq!(after_read(&f, &by, Ok("not a module".to_string()), 3),
        Err(ParseError::SyntaxError { file: f.clone(), referenced_by: by.clone() }));
    let text = "package p import model 'b.fidl' import q from 'c.fidl'".to_string();
    assert_eq!(after_read(&f, &by, Ok(text.clone()), 0),
        Err(ParseError::MaxImportNestingReached { file: f.clone(), referenced_by: by.clone() }));
    let (m, uris) = after_read(&f, &by, Ok(text), 1).unwrap();
    assert_eq!(m.package, "p");
    assert_eq!(uris, vec!["b.fidl".to_string(), "c.fidl".to_string()]);
    assert!(after_read(&f, &by, Ok("package p".to_string()), 0).is_ok());
}

#[test]
fn child_job_outcomes() {
    let f = "/x/a.fidl".to_string();
    let uris = vec!["b.fidl".to_string(), "c.fidl".to_string(), "d.fidl".to_string()];
    assert_eq!(child_jobs(&f, &uris, &vec![Some("/x/b.fidl".to_string()), None, None], 5),
        Err(ParseError::FileNotFound { file: "c.fidl".to_string(), referenced_by: Some(f.clone()) }));
    assert_eq!(child_jobs(&f, &uris, &vec![Some("/b".to_string()), Some("/c".to_string()), Some("/d".to_string())], 5),
        Ok(vec![
            ("/b".to_string(), Some(f.clone()), 4),
            ("/c".to_string(), Some(f.clone()), 4),
            ("/d".to_string(), Some(f.clone()), 4),
        ]));
    assert_eq!(child_jobs(&f, &Vec::new(), &Vec::new(), 0), Ok(Vec::new()));
}

#[test]
fn merged_outcome_keeps_order() {
    let err = ParseError::SyntaxError { file: "/c".to_string(), referenced_by: Some("/a".to_string()) };
    let r = merge_outcome((module(&[]), "/a".to_string()), vec![
        vec![Ok((module(&[]), "/b".to_string())), Ok((module(&[]), "/d".to_string()))],
        Vec::new(),
        vec![Err(err.clone())],
    ]);
    let names: Vec<String> = r.iter().map(|x| match x {
        Ok((_, p)) => p.clone(),
        Err(ParseError::SyntaxError { file, .. }) => format!("err {}", file),
        Err(_) => "other".to_string(),
    }).collect();
    assert_eq!(names, vec!["/a", "/b", "/d", "err /c"]);
}
