use grapple::git_repository::{
    fetch_remote, init_options, is_mirrored_ref, open_step, plan_ref_actions, same_oid,
    ssh_username, transfers, OpenStep, PathState, RefAction, RemoteRef, ATTEMPTS,
};

fn r(name: &str, oid: u8) -> RemoteRef {
    RemoteRef { name: name.to_string(), oid: vec![oid; 20] }
}

fn names(actions: &[(String, RefAction)]) -> Vec<(&str, RefAction)> {
    actions.iter().map(|(n, a)| (n.as_str(), *a)).collect()
}

#[test]
fn mirrored_refs_start_with_refs() {
    assert!(is_mirrored_ref("refs/heads/master"));
    assert!(is_mirrored_ref("refs/"));
    assert!(!is_mirrored_ref("HEAD"));
    assert!(!is_mirrored_ref("refs"));
    assert!(!is_mirrored_ref("ref/heads/x"));
    assert!(!is_mirrored_ref(""));
}

#[test]
fn oids_compare_by_bytes() {
    assert!(same_oid(&vec![1, 2, 3], &vec![1, 2, 3]));
    assert!(!same_oid(&vec![1, 2, 3], &vec![1, 2, 4]));
    assert!(!same_oid(&vec![1, 2], &vec![1, 2, 3]));
}

#[test]
fn plan_updates_deletes_and_creates() {
    let fetch = vec![
        r("HEAD", 1),
        r("refs/heads/master", 2),
        r("refs/heads/feature", 3),
        r("refs/tags/v1", 4),
    ];
    let push = vec![
        r("HEAD", 9),
        r("refs/heads/master", 5),
        r("refs/heads/old", 6),
        r("refs/tags/v1", 4),
    ];
    let actions = plan_ref_actions(&fetch, &push);
    assert_eq!(
        names(&actions),
        vec![
            ("refs/heads/master", RefAction::Update),
            ("refs/heads/old", RefAction::Delete),
            ("refs/heads/feature", RefAction::Create),
        ]
    );
}

#[test]
fn plan_is_empty_when_mirrored() {
    let fetch = vec![r("refs/heads/master", 2), r("refs/tags/v1", 4)];
    let push = vec![r("refs/tags/v1", 4), r("refs/heads/master", 2)];
    assert!(plan_ref_actions(&fetch, &push).is_empty());
}

#[test]
fn plan_creates_everything_on_an_empty_remote() {
    let fetch = vec![r("refs/heads/a", 1), r("refs/heads/b", 2), r("HEAD", 1)];
    let actions = plan_ref_actions(&fetch, &Vec::new());
    assert_eq!(
        names(&actions),
        vec![("refs/heads/a", RefAction::Create), ("refs/heads/b", RefAction::Create)]
    );
}

#[test]
fn plan_deletes_everything_when_the_source_is_empty() {
    let push = vec![r("refs/heads/a", 1), r("HEAD", 3), r("refs/tags/t", 2)];
    let actions = plan_ref_actions(&Vec::new(), &push);
    assert_eq!(
        names(&actions),
        vec![("refs/heads/a", RefAction::Delete), ("refs/tags/t", RefAction::Delete)]
    );
}

#[test]
fn plan_takes_the_last_of_repeated_fetch_refs() {
    let fetch = vec![r("refs/heads/a", 1), r("refs/heads/a", 2)];
    let push = vec![r("refs/heads/a", 2)];
    assert!(plan_ref_actions(&fetch, &push).is_empty());
    let push = vec![r("refs/heads/a", 1)];
    assert_eq!(names(&plan_ref_actions(&fetch, &push)), vec![("refs/heads/a", RefAction::Update)]);
}

#[test]
fn transfers_carry_out_actions() {
    let actions = vec![
        ("refs/heads/master".to_string(), RefAction::Update),
        ("refs/heads/old".to_string(), RefAction::Delete),
        ("refs/tags/v2".to_string(), RefAction::Create),
    ];
    let t = transfers(&actions);
    assert_eq!(t.len(), 3);
    assert_eq!(t[0].refspec, "+refs/heads/master:refs/heads/master");
    assert!(t[0].fetch);
    assert_eq!(t[1].refspec, ":refs/heads/old");
    assert!(!t[1].fetch);
    assert_eq!(t[2].refspec, "+refs/tags/v2:refs/tags/v2");
    assert!(t[2].fetch);
}

#[test]
fn opening_the_mirror() {
    assert_eq!(ATTEMPTS, 3);
    assert_eq!(open_step(3, PathState::Missing), OpenStep::Init);
    assert_eq!(open_step(3, PathState::Directory { opens: true }), OpenStep::Open);
    assert_eq!(
        open_step(3, PathState::Directory { opens: false }),
        OpenStep::RemoveDirectory { retry_with: 2 }
    );
    assert_eq!(open_step(1, PathState::Other), OpenStep::RemoveFile { retry_with: 0 });
    assert_eq!(open_step(0, PathState::Missing), OpenStep::Fail);
    assert_eq!(open_step(0, PathState::Directory { opens: true }), OpenStep::Fail);
}

#[test]
fn opening_gives_up_after_three_removals() {
    let mut attempts = ATTEMPTS;
    let mut removals = 0;
    loop {
        match open_step(attempts, PathState::Other) {
            OpenStep::RemoveFile { retry_with } => {
                removals += 1;
                attempts = retry_with;
            }
            OpenStep::Fail => break,
            other => panic!("unexpected step {:?}", other),
        }
    }
    assert_eq!(removals, 3);
}

#[test]
fn new_mirrors_are_bare() {
    let o = init_options();
    assert!(o.bare && o.no_reinit && !o.no_dotgit_dir && o.mkdir && o.mkpath);
}

#[test]
fn fetch_remote_mirrors_heads_and_tags() {
    let f = fetch_remote("https://github.com/AaronFriel/grapple.git");
    assert_eq!(f.name, "fetch");
    assert_eq!(f.url, "https://github.com/AaronFriel/grapple.git");
    assert_eq!(f.refspecs, vec!["+refs/heads/*:refs/heads/*", "+refs/tags/*:refs/tags/*"]);
}

#[test]
fn ssh_user_defaults_to_grapple() {
    assert_eq!(ssh_username(None), "grapple");
    assert_eq!(ssh_username(Some("git")), "git");
}

fn table(refs: &[RemoteRef]) -> std::collections::BTreeMap<String, Vec<u8>> {
    refs.iter()
        .filter(|r| r.name.starts_with("refs/"))
        .map(|r| (r.name.clone(), r.oid.clone()))
        .collect()
}

#[test]
fn carrying_out_a_plan_mirrors_the_fetch_remote() {
    let fetch = vec![
        r("HEAD", 1),
        r("refs/heads/master", 2),
        r("refs/heads/feature", 3),
        r("refs/tags/v1", 4),
        r("refs/tags/v2", 7),
    ];
    let push = vec![
        r("HEAD", 9),
        r("refs/heads/master", 5),
        r("refs/heads/old", 6),
        r("refs/tags/v1", 4),
    ];
    let source = table(&fetch);
    let mut target = table(&push);
    let actions = plan_ref_actions(&fetch, &push);
    for (name, action) in &actions {
        assert!(name.starts_with("refs/"));
        match action {
            RefAction::Delete => {
                assert!(!source.contains_key(name));
                target.remove(name);
            }
            RefAction::Create => {
                assert!(!target.contains_key(name));
                target.insert(name.clone(), source[name].clone());
            }
            RefAction::Update => {
                assert_ne!(target[name], source[name]);
                target.insert(name.clone(), source[name].clone());
            }
        }
    }
    assert_eq!(target, source);
    assert_eq!(actions.len(), 4);
}

#[test]
fn a_second_plan_after_mirroring_is_empty() {
    let fetch = vec![r("HEAD", 1), r("refs/heads/master", 2), r("refs/tags/v1", 4)];
    let push = vec![r("refs/tags/v1", 4), r("refs/heads/master", 2), r("HEAD", 7)];
    assert!(plan_ref_actions(&fetch, &push).is_empty());
}
