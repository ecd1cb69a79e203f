use git2::{BranchType, Repository, Signature};
use keifu::git::branch::{
    reads_remotes, BranchInfo, BranchRef, BranchScan, HeadRef, LocalRef, Oid, TagInfo, TagRef,
    Walk,
};
use keifu::order::name_le;
use tempfile::TempDir;

fn init_repo_with_commit() -> (TempDir, Repository) {
    let tempdir = tempfile::tempdir().unwrap();
    let repo = Repository::init(tempdir.path()).unwrap();
    let blob = repo.blob(b"base\n").unwrap();
    let mut builder = repo.treebuilder(None).unwrap();
    builder.insert("base.txt", blob, 0o100644).unwrap();
    let tree_id = builder.write().unwrap();
    drop(builder);
    let tree = repo.find_tree(tree_id).unwrap();
    let sig = Signature::now("Test", "test@example.com").unwrap();
    repo.commit(Some("HEAD"), &sig, &sig, "init", &tree, &[])
        .unwrap();
    drop(tree);
    (tempdir, repo)
}

fn oid(id: git2::Oid) -> Oid {
    let mut bytes = [0u8; 20];
    bytes.copy_from_slice(id.as_bytes());
    Oid { bytes }
}

fn walk_tags(repo: &Repository) -> Walk<TagRef<git2::Error>, git2::Error> {
    let references = repo.references_glob("refs/tags/*")?;
    Ok(references
        .map(|reference| {
            let reference = reference?;
            Ok(TagRef {
                name: reference.shorthand().map(|s| s.to_string()),
                commit: reference.peel_to_commit().map(|commit| oid(commit.id())),
            })
        })
        .collect())
}

fn branch_ref(branch: &git2::Branch) -> Result<BranchRef, git2::Error> {
    Ok(BranchRef {
        name: branch.name()?.map(|s| s.to_string()),
        target: branch.get().target().map(oid),
    })
}

fn scan_branches(repo: &Repository) -> BranchScan<git2::Error> {
    BranchScan {
        head: repo.head().map(|head| HeadRef {
            target: head.target().map(oid),
            shorthand: head.shorthand().map(|s| s.to_string()),
        }),
        locals: repo.branches(Some(BranchType::Local)).map(|branches| {
            branches
                .map(|item| {
                    let (branch, _) = item?;
                    Ok(LocalRef {
                        branch: branch_ref(&branch)?,
                        upstream: branch
                            .upstream()
                            .and_then(|u| Ok(u.name()?.map(|s| s.to_string()))),
                    })
                })
                .collect()
        }),
        remotes: repo.branches(Some(BranchType::Remote)).map(|branches| {
            branches
                .map(|item| {
                    let (branch, _) = item?;
                    branch_ref(&branch)
                })
                .collect()
        }),
    }
}

#[test]
fn list_all_returns_empty_when_no_tags() {
    let (_tempdir, repo) = init_repo_with_commit();
    assert!(TagInfo::list_all(walk_tags(&repo)).unwrap().is_empty());
}

#[test]
fn list_all_resolves_lightweight_and_annotated_tags() {
    let (_tempdir, repo) = init_repo_with_commit();
    let head_oid = repo.head().unwrap().target().unwrap();
    let target = repo.find_object(head_oid, None).unwrap();

    repo.tag_lightweight("v1.0.0", &target, false).unwrap();

    let sig = Signature::now("Test", "test@example.com").unwrap();
    repo.tag("v1.1.0", &target, &sig, "release notes", false)
        .unwrap();

    let tags = TagInfo::list_all(walk_tags(&repo)).unwrap();

    assert_eq!(tags.len(), 2);
    assert_eq!(tags[0].name, "v1.0.0");
    assert_eq!(tags[0].tip_oid, oid(head_oid));
    assert_eq!(tags[1].name, "v1.1.0");
    assert_eq!(tags[1].tip_oid, oid(head_oid));
}

#[test]
fn a_tag_on_a_blob_is_left_out() {
    let (_tempdir, repo) = init_repo_with_commit();
    let blob = repo.blob(b"loose\n").unwrap();
    let object = repo.find_object(blob, None).unwrap();
    repo.tag_lightweight("blob", &object, false).unwrap();
    let head_oid = repo.head().unwrap().target().unwrap();
    let commit = repo.find_object(head_oid, None).unwrap();
    repo.tag_lightweight("commit", &commit, false).unwrap();

    let tags = TagInfo::list_all(walk_tags(&repo)).unwrap();

    assert_eq!(tags.len(), 1);
    assert_eq!(tags[0].name, "commit");
}

#[test]
fn branches_of_a_repository() {
    let (_tempdir, repo) = init_repo_with_commit();
    let head_oid = repo.head().unwrap().target().unwrap();
    let commit = repo.find_commit(head_oid).unwrap();
    let main = repo.head().unwrap().shorthand().unwrap().to_string();
    repo.branch("aaa", &commit, false).unwrap();
    repo.branch("zzz", &commit, false).unwrap();
    repo.reference("refs/remotes/origin/bbb", head_oid, false, "test")
        .unwrap();
    repo.reference_symbolic(
        "refs/remotes/origin/HEAD",
        "refs/remotes/origin/bbb",
        false,
        "test",
    )
    .unwrap();

    let list = BranchInfo::list_all(scan_branches(&repo), true).unwrap();
    let names: Vec<&str> = list.iter().map(|b| b.name.as_str()).collect();
    assert_eq!(names, vec![main.as_str(), "aaa", "origin/bbb", "zzz"]);
    let heads: Vec<bool> = list.iter().map(|b| b.is_head).collect();
    assert_eq!(heads, vec![true, false, false, false]);
    let remotes: Vec<bool> = list.iter().map(|b| b.is_remote).collect();
    assert_eq!(remotes, vec![false, false, true, false]);
    assert!(list.iter().all(|b| b.upstream.is_none()));
    assert!(list.iter().all(|b| b.tip_oid == oid(head_oid)));

    let list = BranchInfo::list_all(scan_branches(&repo), false).unwrap();
    let names: Vec<&str> = list.iter().map(|b| b.name.as_str()).collect();
    assert_eq!(names, vec![main.as_str(), "aaa", "zzz"]);
}

fn id(n: u8) -> Oid {
    Oid { bytes: [n; 20] }
}

fn branch(name: &str, n: u8) -> BranchRef {
    BranchRef {
        name: Some(name.to_string()),
        target: Some(id(n)),
    }
}

fn local(name: &str, n: u8) -> Result<LocalRef<String>, String> {
    Ok(LocalRef {
        branch: branch(name, n),
        upstream: Err("no upstream".to_string()),
    })
}

fn head(name: &str, n: u8) -> Result<HeadRef, String> {
    Ok(HeadRef {
        target: Some(id(n)),
        shorthand: Some(name.to_string()),
    })
}

fn listed(list: &[BranchInfo]) -> Vec<(&str, bool, bool)> {
    list.iter()
        .map(|b| (b.name.as_str(), b.is_head, b.is_remote))
        .collect()
}

#[test]
fn head_goes_first_and_the_rest_by_name() {
    let scan = BranchScan {
        head: head("topic", 1),
        locals: Ok(vec![
            local("b", 1),
            local("topic", 1),
            local("a", 2),
            local("Z", 3),
        ]),
        remotes: Ok(vec![Ok(branch("origin/a", 4)), Ok(branch("a", 5))]),
    };
    let list = BranchInfo::list_all(scan, true).unwrap();
    assert_eq!(
        listed(&list),
        vec![
            ("topic", true, false),
            ("Z", false, false),
            ("a", false, false),
            ("a", false, true),
            ("b", false, false),
            ("origin/a", false, true),
        ]
    );
    assert_eq!(list[2].tip_oid, id(2));
    assert_eq!(list[3].tip_oid, id(5));
}

#[test]
fn head_needs_both_its_name_and_its_target() {
    let cases = [
        (head("main", 1), true),
        (head("main", 2), false),
        (head("other", 1), false),
        (Err("unborn".to_string()), false),
        (
            Ok(HeadRef {
                target: None,
                shorthand: Some("main".to_string()),
            }),
            false,
        ),
        (
            Ok(HeadRef {
                target: Some(id(1)),
                shorthand: None,
            }),
            false,
        ),
    ];
    for (head, expected) in cases {
        let scan = BranchScan {
            head,
            locals: Ok(vec![local("main", 1)]),
            remotes: Ok(Vec::new()),
        };
        let list = BranchInfo::list_all(scan, false).unwrap();
        assert_eq!(listed(&list), vec![("main", expected, false)]);
    }
}

#[test]
fn a_remote_branch_is_never_head() {
    let scan = BranchScan {
        head: head("main", 1),
        locals: Ok(Vec::new()),
        remotes: Ok(vec![Ok(branch("main", 1))]),
    };
    let list = BranchInfo::list_all(scan, true).unwrap();
    assert_eq!(listed(&list), vec![("main", false, true)]);
    assert_eq!(list[0].upstream, None);
}

#[test]
fn branches_without_a_name_or_a_target_are_left_out() {
    let nameless = || BranchRef {
        name: None,
        target: Some(id(1)),
    };
    let symbolic = || BranchRef {
        name: Some("symbolic".to_string()),
        target: None,
    };
    let scan: BranchScan<String> = BranchScan {
        head: head("main", 1),
        locals: Ok(vec![
            Ok(LocalRef {
                branch: nameless(),
                upstream: Ok(None),
            }),
            Ok(LocalRef {
                branch: symbolic(),
                upstream: Ok(None),
            }),
            Ok(LocalRef {
                branch: branch("main", 1),
                upstream: Ok(Some("origin/main".to_string())),
            }),
            Ok(LocalRef {
                branch: branch("untracked", 1),
                upstream: Ok(None),
            }),
        ]),
        remotes: Ok(vec![Ok(nameless()), Ok(symbolic())]),
    };
    let list = BranchInfo::list_all(scan, true).unwrap();
    assert_eq!(
        listed(&list),
        vec![("main", true, false), ("untracked", false, false)]
    );
    assert_eq!(list[0].upstream.as_deref(), Some("origin/main"));
    assert_eq!(list[1].upstream, None);
}

#[test]
fn the_first_failure_fails_the_listing() {
    let fail = |text: &str| text.to_string();
    let scan = |locals, remotes| BranchScan {
        head: head("main", 1),
        locals,
        remotes,
    };

    let list = BranchInfo::list_all(scan(Err(fail("locals")), Err(fail("remotes"))), true);
    assert_eq!(list.unwrap_err(), "locals");

    let locals = || Ok(vec![local("a", 1), Err(fail("second")), Err(fail("third"))]);
    let list = BranchInfo::list_all(scan(locals(), Err(fail("remotes"))), true);
    assert_eq!(list.unwrap_err(), "second");

    let locals = || Ok(vec![local("a", 1)]);
    let list = BranchInfo::list_all(scan(locals(), Err(fail("remotes"))), true);
    assert_eq!(list.unwrap_err(), "remotes");
    let list = BranchInfo::list_all(scan(locals(), Ok(vec![Err(fail("one"))])), true);
    assert_eq!(list.unwrap_err(), "one");
    let list = BranchInfo::list_all(scan(locals(), Err(fail("remotes"))), false);
    assert_eq!(list.unwrap().len(), 1);
}

#[test]
fn tags_go_by_name_and_fail_only_where_the_walk_does() {
    let tag = |name: Option<&str>, commit| {
        Ok(TagRef {
            name: name.map(|s| s.to_string()),
            commit,
        })
    };
    let walk: Walk<TagRef<String>, String> = Ok(vec![
        tag(Some("v2"), Ok(id(2))),
        tag(None, Ok(id(3))),
        tag(Some("v10"), Ok(id(4))),
        tag(Some("tree"), Err("not a commit".to_string())),
        tag(Some("v1"), Ok(id(1))),
    ]);
    let tags = TagInfo::list_all(walk).unwrap();
    let names: Vec<&str> = tags.iter().map(|t| t.name.as_str()).collect();
    assert_eq!(names, vec!["v1", "v10", "v2"]);
    assert_eq!(tags[1].tip_oid, id(4));

    let walk: Walk<TagRef<String>, String> = Err("odb".to_string());
    assert_eq!(TagInfo::list_all(walk).unwrap_err(), "odb");
    let walk: Walk<TagRef<String>, String> =
        Ok(vec![tag(Some("v1"), Ok(id(1))), Err("broken".to_string())]);
    assert_eq!(TagInfo::list_all(walk).unwrap_err(), "broken");
}

#[test]
fn a_long_list_is_sorted_stably() {
    let names: Vec<String> = (0..257u32)
        .map(|i| format!("b{}", (i * 7919) % 64))
        .collect();
    let locals = names
        .iter()
        .enumerate()
        .map(|(i, name)| local(name, i as u8))
        .collect();
    let scan = BranchScan {
        head: Err("unborn".to_string()),
        locals: Ok(locals),
        remotes: Ok(Vec::new()),
    };
    let list = BranchInfo::list_all(scan, false).unwrap();
    let got: Vec<(String, u8)> = list
        .iter()
        .map(|b| (b.name.clone(), b.tip_oid.bytes[0]))
        .collect();
    let mut expected: Vec<(String, u8)> = names
        .iter()
        .enumerate()
        .map(|(i, name)| (name.clone(), i as u8))
        .collect();
    expected.sort_by(|a, b| a.0.as_str().partial_cmp(b.0.as_str()).unwrap());
    assert_eq!(got, expected);
}

#[test]
fn names_are_compared_by_bytes() {
    let names = ["", "a", "aa", "b", "Z", "é", "日本", "\u{10000}", "\u{ffff}"];
    for a in names {
        for b in names {
            assert_eq!(name_le(a, b), a <= b);
        }
    }
}

#[test]
fn oids_are_compared_by_bytes() {
    let mut other = id(1);
    other.bytes[19] = 2;
    assert!(id(1) == id(1));
    assert!(id(1) != other);
}

#[test]
fn remotes_are_read_where_they_are_listed_and_the_locals_were_read() {
    let walked: Walk<LocalRef<String>, String> = Ok(vec![local("a", 1), local("b", 2)]);
    assert!(reads_remotes(&walked, true));
    assert!(!reads_remotes(&walked, false));
    assert!(reads_remotes::<String>(&Ok(Vec::new()), true));
    assert!(!reads_remotes(&Err("locals".to_string()), true));
    let broken = Ok(vec![local("a", 1), Err("second".to_string())]);
    assert!(!reads_remotes(&broken, true));
}
