use revset::revset::{EagerRevset, RevWalkRevset};
use revset::{
    evaluate_expression, is_evaluable, non_obsolete_heads, parse, Commit, CommitId, CommitRecord,
    EvaluatedRevset, Evolution, GitRef, Index, IndexEntry, RepoRef, RepoView, Revset, RevsetError,
    RevsetExpression, Store, StoreError,
};

fn id(n: u8) -> CommitId {
    CommitId(vec![n])
}

struct Repo {
    store: Store,
    view: RepoView,
    index: Index,
    evolution: Evolution,
}

impl Repo {
    /// Commits 0 to 6: 1 is a child of 0; 2 and 3 are children of 1; 4 merges 2
    /// and 3; 5 is a child of 3; 6 is a child of 5.
    fn new() -> Repo {
        let mut repo = Repo {
            store: Store {
                root: Commit {
                    id: id(0),
                    description: String::new(),
                },
                records: vec![],
            },
            view: RepoView {
                checkout: id(4),
                git_refs: vec![],
                heads: vec![],
            },
            index: Index::new(),
            evolution: Evolution { obsolete: vec![] },
        };
        repo.add(0, "", &[], false);
        repo.add(1, "first change", &[0], false);
        repo.add(2, "left", &[1], false);
        repo.add(3, "right", &[1], false);
        repo.add(4, "merge of left", &[2, 3], false);
        repo.add(5, "change after right", &[3], false);
        repo.add(6, "last", &[5], false);
        repo.view.heads = vec![id(4), id(6)];
        repo
    }

    fn add(&mut self, n: u8, description: &str, parents: &[u8], pruned: bool) {
        let parent_ids: Vec<CommitId> = parents.iter().map(|p| id(*p)).collect();
        assert_eq!(
            self.index.add_commit_data(id(n), pruned, &parent_ids),
            Some(n as u32)
        );
        self.store.records.push(CommitRecord {
            id: id(n),
            content: Ok(description.to_string()),
        });
    }

    fn as_ref(&self) -> RepoRef<'_> {
        RepoRef {
            store: &self.store,
            view: &self.view,
            index: &self.index,
            evolution: &self.evolution,
        }
    }
}

fn positions(entries: Vec<IndexEntry<'_>>) -> Vec<u32> {
    entries.iter().map(|entry| entry.position()).collect()
}

fn evaluate(repo: &Repo, text: &str) -> Vec<u32> {
    let expression = parse(text).unwrap();
    match evaluate_expression(repo.as_ref(), &expression) {
        Ok(set) => positions(set.iter()),
        Err(error) => panic!("{:?}", error),
    }
}

fn evaluation_error(repo: &Repo, text: &str) -> RevsetError {
    let expression = parse(text).unwrap();
    match evaluate_expression(repo.as_ref(), &expression) {
        Ok(_) => panic!("no error"),
        Err(error) => error,
    }
}

#[test]
fn symbols_are_single_commits() {
    let repo = Repo::new();
    assert_eq!(evaluate(&repo, "@"), vec![4]);
    assert_eq!(evaluate(&repo, "root"), vec![0]);
    assert_eq!(evaluate(&repo, "05"), vec![5]);
}

#[test]
fn parents_are_sorted_and_listed_once() {
    let repo = Repo::new();
    assert_eq!(evaluate(&repo, ":@"), vec![3, 2]);
    assert_eq!(evaluate(&repo, "::@"), vec![1]);
    assert_eq!(evaluate(&repo, ":root"), Vec::<u32>::new());
    assert_eq!(evaluate(&repo, ":all_heads()"), vec![5, 3, 2]);
}

#[test]
fn ancestors_come_from_high_to_low() {
    let repo = Repo::new();
    assert_eq!(evaluate(&repo, "*:@"), vec![4, 3, 2, 1, 0]);
    assert_eq!(evaluate(&repo, "*:06"), vec![6, 5, 3, 1, 0]);
    assert_eq!(evaluate(&repo, "*:all_heads()"), vec![6, 5, 4, 3, 2, 1, 0]);
    assert_eq!(evaluate(&repo, "*:*:@"), evaluate(&repo, "*:@"));
    assert_eq!(evaluate(&repo, "*::root"), Vec::<u32>::new());
}

#[test]
fn ancestors_are_the_set_and_the_ancestors_of_its_parents() {
    let repo = Repo::new();
    for base in ["@", "06", "root", "all_heads()"] {
        let mut expected = evaluate(&repo, base);
        expected.extend(evaluate(&repo, &format!("*::{}", base)));
        expected.sort_by(|a, b| b.cmp(a));
        expected.dedup();
        assert_eq!(evaluate(&repo, &format!("*:{}", base)), expected);
    }
}

#[test]
fn ancestors_hold_their_parents() {
    let repo = Repo::new();
    let ancestors = evaluate(&repo, "*:06");
    assert_eq!(evaluate(&repo, ":*:06"), vec![5, 3, 1, 0]);
    assert!(evaluate(&repo, ":*:06").iter().all(|p| ancestors.contains(p)));
    assert!(evaluate(&repo, "06").iter().all(|p| ancestors.contains(p)));
}

#[test]
fn live_commits_lie_below_live_heads() {
    let mut repo = Repo::new();
    repo.evolution.obsolete = vec![id(4), id(6)];
    assert_eq!(evaluate(&repo, "non_obsolete_heads(*:all_heads())"), vec![5, 2]);
    let below = evaluate(&repo, "*:non_obsolete_heads(*:all_heads())");
    assert_eq!(below, vec![5, 3, 2, 1, 0]);
}

#[test]
fn every_expression_can_be_evaluated_in_a_consistent_repository() {
    let repo = Repo::new();
    let text = "description(\"e\",non_obsolete_heads(:*:all_heads()))";
    assert_eq!(evaluate(&repo, text), vec![5, 2]);
}

#[test]
fn a_walk_can_be_iterated_again() {
    let repo = Repo::new();
    let expression = parse("*:02").unwrap();
    let set = evaluate_expression(repo.as_ref(), &expression).ok().unwrap();
    assert!(matches!(set, EvaluatedRevset::RevWalk(_)));
    assert_eq!(positions(set.iter()), vec![2, 1, 0]);
    assert_eq!(positions(set.iter()), vec![2, 1, 0]);
}

#[test]
fn a_set_in_memory_can_be_iterated_again() {
    let repo = Repo::new();
    let expression = parse(":@").unwrap();
    let set = evaluate_expression(repo.as_ref(), &expression).ok().unwrap();
    assert!(matches!(set, EvaluatedRevset::Eager(_)));
    assert_eq!(positions(set.iter()), vec![3, 2]);
    assert_eq!(positions(set.iter()), vec![3, 2]);
}

#[test]
fn live_heads_are_those_of_the_ancestors() {
    let mut repo = Repo::new();
    repo.evolution.obsolete = vec![id(2), id(4), id(6)];
    assert_eq!(evaluate(&repo, "non_obsolete_heads(@)"), vec![3]);
    assert_eq!(
        evaluate(&repo, "non_obsolete_heads(*:@)"),
        evaluate(&repo, "non_obsolete_heads(@)")
    );
    assert_eq!(evaluate(&repo, "non_obsolete_heads(*:all_heads())"), vec![5]);
    assert_eq!(evaluate(&repo, "non_obsolete_heads()"), vec![5]);
}

#[test]
fn what_can_be_evaluated() {
    let mut repo = Repo::new();
    let test = |repo: &Repo, text: &str| is_evaluable(repo.as_ref(), &parse(text).unwrap());
    for text in ["@", "zzz", ":@", "*:@", "all_heads()", "non_obsolete_heads()", "description(a)"] {
        assert!(test(&repo, text));
    }
    assert!(test(&repo, "description(a,zzz)"));
    // A commit that the store has and the index lacks.
    repo.store.records.push(CommitRecord {
        id: id(50),
        content: Ok("not indexed".to_string()),
    });
    for text in ["32", ":32", "*:32", "non_obsolete_heads(32)", "description(a,32)"] {
        assert!(!test(&repo, text));
    }
    // A commit that the index has and the store does not give.
    repo.store.records.push(CommitRecord {
        id: id(3),
        content: Err(StoreError::Other("broken".to_string())),
    });
    assert!(test(&repo, ":@"));
    assert!(!test(&repo, "description(a,:@)"));
    assert!(test(&repo, "description(a,@)"));
    // A head that the index lacks.
    repo.view.heads.push(id(51));
    assert!(!test(&repo, "all_heads()"));
    assert!(!test(&repo, "non_obsolete_heads()"));
    assert!(test(&repo, "non_obsolete_heads(@)"));
}

#[test]
fn all_heads_are_sorted() {
    let mut repo = Repo::new();
    assert_eq!(evaluate(&repo, "all_heads()"), vec![6, 4]);
    repo.view.heads = vec![id(2), id(6), id(2), id(4)];
    assert_eq!(evaluate(&repo, "all_heads()"), vec![6, 4, 2]);
}

#[test]
fn live_heads_stay() {
    let repo = Repo::new();
    assert_eq!(evaluate(&repo, "non_obsolete_heads()"), vec![6, 4]);
    assert_eq!(evaluate(&repo, "non_obsolete_heads(*:@)"), vec![4]);
    assert_eq!(
        evaluate(&repo, "non_obsolete_heads(non_obsolete_heads())"),
        vec![6, 4]
    );
}

#[test]
fn obsolete_and_pruned_heads_give_way_to_live_ancestors() {
    let mut repo = Repo::new();
    repo.evolution.obsolete = vec![id(6)];
    assert_eq!(evaluate(&repo, "non_obsolete_heads()"), vec![5, 4]);
    repo.evolution.obsolete = vec![id(5), id(6)];
    // The ways down lead to 3, which is an ancestor of 4.
    assert_eq!(evaluate(&repo, "non_obsolete_heads()"), vec![4]);
    repo.evolution.obsolete = vec![id(4), id(5), id(6)];
    assert_eq!(evaluate(&repo, "non_obsolete_heads()"), vec![3, 2]);
    repo.evolution.obsolete = vec![id(0), id(1), id(2), id(3), id(4), id(5), id(6)];
    assert_eq!(evaluate(&repo, "non_obsolete_heads()"), Vec::<u32>::new());
    repo.evolution.obsolete = vec![];
    repo.add(7, "pruned", &[6], true);
    repo.view.heads = vec![id(7), id(2)];
    assert_eq!(evaluate(&repo, "non_obsolete_heads()"), vec![6, 2]);
}

#[test]
fn non_obsolete_heads_of_a_set() {
    let mut repo = Repo::new();
    repo.evolution.obsolete = vec![id(4)];
    let expression = parse("@").unwrap();
    let base = evaluate_expression(repo.as_ref(), &expression).ok().unwrap();
    let set = non_obsolete_heads(repo.as_ref(), &base);
    assert_eq!(positions(set.iter()), vec![3, 2]);
}

#[test]
fn descriptions_filter_the_base() {
    let repo = Repo::new();
    assert_eq!(evaluate(&repo, "description(change)"), vec![5, 1]);
    assert_eq!(evaluate(&repo, "description(left,*:@)"), vec![4, 2]);
    assert_eq!(evaluate(&repo, "description(\"merge of\",all_heads())"), vec![4]);
    assert_eq!(evaluate(&repo, "description(left,description(left,*:@))"), vec![4, 2]);
    assert_eq!(evaluate(&repo, "description(nothing)"), Vec::<u32>::new());
    assert_eq!(evaluate(&repo, "description(\"\",:@)"), vec![3, 2]);
    assert_eq!(
        evaluate(&repo, "description(left,description(merge,*:@))"),
        evaluate(&repo, "description(merge,description(left,*:@))")
    );
}

#[test]
fn errors_come_through_every_operator() {
    let mut repo = Repo::new();
    let missing = RevsetError::NoSuchRevision("zzz".to_string());
    assert_eq!(evaluation_error(&repo, "zzz"), missing);
    assert_eq!(evaluation_error(&repo, ":zzz"), missing);
    assert_eq!(evaluation_error(&repo, "*:zzz"), missing);
    assert_eq!(evaluation_error(&repo, "non_obsolete_heads(zzz)"), missing);
    assert_eq!(evaluation_error(&repo, "description(a,zzz)"), missing);
    repo.view.git_refs.push(GitRef {
        name: "gone".to_string(),
        target: id(99),
    });
    assert_eq!(
        evaluation_error(&repo, ":gone"),
        RevsetError::StoreError(StoreError::NotFound)
    );
}

#[test]
fn kinds_of_sets() {
    let repo = Repo::new();
    let set = evaluate_expression(repo.as_ref(), &RevsetExpression::AllHeads);
    let eager: EagerRevset<'_> = match set {
        Ok(EvaluatedRevset::Eager(eager)) => eager,
        _ => panic!("not held in memory"),
    };
    assert_eq!(positions(eager.iter()), vec![6, 4]);
    let expression = parse("*:01").unwrap();
    let set = evaluate_expression(repo.as_ref(), &expression);
    let walk: RevWalkRevset<'_> = match set {
        Ok(EvaluatedRevset::RevWalk(walk)) => walk,
        _ => panic!("not a walk"),
    };
    assert_eq!(positions(walk.iter()), vec![1, 0]);
}
