use revset::hexadecimal::HexPrefix;
use revset::index::PrefixResolution;
use revset::{
    resolve_symbol, Commit, CommitId, CommitRecord, Evolution, GitRef, Index, RepoRef, RepoView,
    RevsetError, Store, StoreError,
};

fn record(id: &[u8], description: &str) -> CommitRecord {
    CommitRecord {
        id: CommitId(id.to_vec()),
        content: Ok(description.to_string()),
    }
}

fn git_ref(name: &str, target: &[u8]) -> GitRef {
    GitRef {
        name: name.to_string(),
        target: CommitId(target.to_vec()),
    }
}

fn commit(id: &[u8], description: &str) -> Commit {
    Commit {
        id: CommitId(id.to_vec()),
        description: description.to_string(),
    }
}

const ROOT: &[u8] = &[0x00, 0x00];
const ONE: &[u8] = &[0xab, 0xcd];
const TWO: &[u8] = &[0xab, 0xce];
const THREE: &[u8] = &[0x12, 0x34];

fn store() -> Store {
    Store {
        root: commit(ROOT, "root"),
        records: vec![
            record(ROOT, "root"),
            record(ONE, "one"),
            record(TWO, "two"),
            record(THREE, "three"),
        ],
    }
}

fn index() -> Index {
    let mut index = Index::new();
    for id in [ROOT, ONE, TWO, THREE] {
        assert!(index
            .add_commit_data(CommitId(id.to_vec()), false, &vec![])
            .is_some());
    }
    index
}

fn resolve_with(store: &Store, refs: Vec<GitRef>, symbol: &str) -> Result<Commit, RevsetError> {
    let view = RepoView {
        checkout: CommitId(THREE.to_vec()),
        git_refs: refs,
        heads: vec![],
    };
    let index = index();
    let evolution = Evolution { obsolete: vec![] };
    let repo = RepoRef {
        store,
        view: &view,
        index: &index,
        evolution: &evolution,
    };
    resolve_symbol(repo, symbol)
}

fn resolve(refs: Vec<GitRef>, symbol: &str) -> Result<Commit, RevsetError> {
    resolve_with(&store(), refs, symbol)
}

#[test]
fn reserved_symbols_come_before_refs() {
    let refs = || vec![git_ref("@", ONE), git_ref("root", TWO)];
    assert_eq!(resolve(refs(), "@"), Ok(commit(THREE, "three")));
    assert_eq!(resolve(refs(), "root"), Ok(commit(ROOT, "root")));
}

#[test]
fn refs_are_looked_for_in_order() {
    let mut refs = vec![
        git_ref("refs/remotes/x", ROOT),
        git_ref("refs/tags/x", ONE),
        git_ref("refs/heads/x", TWO),
        git_ref("refs/x", THREE),
        git_ref("x", ONE),
    ];
    assert_eq!(resolve(refs, "x"), Ok(commit(ONE, "one")));
    refs = vec![
        git_ref("refs/remotes/x", ROOT),
        git_ref("refs/tags/x", ONE),
        git_ref("refs/heads/x", TWO),
        git_ref("refs/x", THREE),
    ];
    assert_eq!(resolve(refs, "x"), Ok(commit(THREE, "three")));
    refs = vec![
        git_ref("refs/remotes/x", ROOT),
        git_ref("refs/tags/x", ONE),
        git_ref("refs/heads/x", TWO),
    ];
    assert_eq!(resolve(refs, "x"), Ok(commit(TWO, "two")));
    refs = vec![git_ref("refs/remotes/x", ROOT), git_ref("refs/tags/x", ONE)];
    assert_eq!(resolve(refs, "x"), Ok(commit(ONE, "one")));
    refs = vec![git_ref("refs/remotes/x", ROOT)];
    assert_eq!(resolve(refs, "x"), Ok(commit(ROOT, "root")));
    refs = vec![git_ref("refs/heads/x", TWO)];
    assert_eq!(resolve(refs, "refs/heads/x"), Ok(commit(TWO, "two")));
    refs = vec![git_ref("refs/heads/x", TWO)];
    assert_eq!(resolve(refs, "heads/x"), Ok(commit(TWO, "two")));
    refs = vec![git_ref("refs/notes/x", TWO)];
    assert_eq!(
        resolve(refs, "x"),
        Err(RevsetError::NoSuchRevision("x".to_string()))
    );
}

#[test]
fn the_later_of_two_refs_holds() {
    let refs = vec![git_ref("x", ONE), git_ref("x", TWO)];
    assert_eq!(resolve(refs, "x"), Ok(commit(TWO, "two")));
}

#[test]
fn refs_come_before_ids() {
    let refs = vec![git_ref("abcd", THREE)];
    assert_eq!(resolve(refs, "abcd"), Ok(commit(THREE, "three")));
}

#[test]
fn full_ids() {
    assert_eq!(resolve(vec![], "abcd"), Ok(commit(ONE, "one")));
    assert_eq!(resolve(vec![], "1234"), Ok(commit(THREE, "three")));
    assert_eq!(resolve(vec![], "ABcd"), Ok(commit(ONE, "one")));
}

#[test]
fn a_full_id_comes_before_a_prefix() {
    let mut store = store();
    store.records.push(record(&[0xab], "short"));
    assert_eq!(resolve_with(&store, vec![], "ab"), Ok(commit(&[0xab], "short")));
}

#[test]
fn prefixes() {
    assert_eq!(resolve(vec![], "1"), Ok(commit(THREE, "three")));
    assert_eq!(resolve(vec![], "123"), Ok(commit(THREE, "three")));
    assert_eq!(resolve(vec![], "12"), Ok(commit(THREE, "three")));
    assert_eq!(
        resolve(vec![], "ab"),
        Err(RevsetError::AmbiguousCommitIdPrefix("ab".to_string()))
    );
    assert_eq!(
        resolve(vec![], "abc"),
        Err(RevsetError::AmbiguousCommitIdPrefix("abc".to_string()))
    );
    assert_eq!(
        resolve(vec![], ""),
        Err(RevsetError::AmbiguousCommitIdPrefix(String::new()))
    );
    assert_eq!(
        resolve(vec![], "abcf"),
        Err(RevsetError::NoSuchRevision("abcf".to_string()))
    );
    assert_eq!(
        resolve(vec![], "12345"),
        Err(RevsetError::NoSuchRevision("12345".to_string()))
    );
    assert_eq!(
        resolve(vec![], "AB"),
        Err(RevsetError::NoSuchRevision("AB".to_string()))
    );
}

#[test]
fn unknown_symbols() {
    assert_eq!(
        resolve(vec![], "main"),
        Err(RevsetError::NoSuchRevision("main".to_string()))
    );
    assert_eq!(
        resolve(vec![], "\u{e9}"),
        Err(RevsetError::NoSuchRevision("\u{e9}".to_string()))
    );
}

#[test]
fn errors_of_the_store() {
    let mut store = store();
    store.records.push(CommitRecord {
        id: CommitId(ONE.to_vec()),
        content: Err(StoreError::Other("broken".to_string())),
    });
    let broken = RevsetError::StoreError(StoreError::Other("broken".to_string()));
    assert_eq!(resolve_with(&store, vec![], "abcd"), Err(broken));
    let refs = vec![git_ref("x", &[0x99])];
    assert_eq!(
        resolve(refs, "x"),
        Err(RevsetError::StoreError(StoreError::NotFound))
    );
}

#[test]
fn a_store_error_becomes_an_error_of_the_revset() {
    let error: RevsetError = RevsetError::from(StoreError::NotFound);
    assert_eq!(error, RevsetError::StoreError(StoreError::NotFound));
}

#[test]
fn messages_of_errors() {
    assert_eq!(
        RevsetError::NoSuchRevision("x".to_string()).message(),
        "Revision \"x\" doesn't exist"
    );
    assert_eq!(
        RevsetError::AmbiguousCommitIdPrefix("a".to_string()).message(),
        "Commit id prefix \"a\" is ambiguous"
    );
    assert_eq!(
        RevsetError::StoreError(StoreError::NotFound).message(),
        "Unexpected error from store: Object not found"
    );
    assert_eq!(
        RevsetError::StoreError(StoreError::Other("broken".to_string())).message(),
        "Unexpected error from store: Error: broken"
    );
}

#[test]
fn hexadecimal_prefixes() {
    assert!(HexPrefix::new("0g".to_string()).is_none());
    assert!(HexPrefix::new("A".to_string()).is_none());
    let prefix = HexPrefix::new("abc".to_string()).unwrap();
    assert!(prefix.matches(&CommitId(ONE.to_vec())));
    assert!(!prefix.matches(&CommitId(THREE.to_vec())));
    assert!(!prefix.matches(&CommitId(vec![0xab])));
    assert!(matches!(
        index().resolve_prefix(&prefix),
        PrefixResolution::AmbiguousMatch
    ));
}
