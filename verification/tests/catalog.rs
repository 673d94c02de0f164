//! Transactions of the catalog.
use forgefs::catalog::Meta;
use forgefs::names::{sanitize_agent, validate_ref_kind, validate_ref_name};
use forgefs::rows::Observed;
use forgefs::types::{CasResult, Error, ObjectId};

const ULID: &str = "01ARZ3NDEKTSV4RRFFQ69G5FAV";

fn oid(n: u8) -> ObjectId {
    ObjectId([n; 32])
}

fn seed(meta: &mut Meta, ns: &str, ref_name: &str, pin: ObjectId, current: ObjectId) {
    meta.insert_ref(ref_name, current, "commit", false, false, "a", "seed", 1)
        .unwrap();
    meta.insert_namespace(ns, "a", pin, ref_name, 1).unwrap();
    meta.insert_mount(ns, "/", &format!("ref:{ref_name}"), "rw", Some(pin))
        .unwrap();
    meta.overlay_upsert(ns, "/", "x", Some(oid(9)), false)
        .unwrap();
    meta.observe(ns, "/", "read", Observed::Blob(oid(8)));
}

#[test]
fn protected_ref_cannot_cas_without_flag() {
    let mut meta = Meta::new();
    meta.insert_ref("main", oid(1), "commit", true, false, "init", "init", 1)
        .unwrap();
    let err = meta
        .cas_ref("main", oid(1), oid(2), "commit", "a", "a", false, 2)
        .unwrap_err();
    assert!(matches!(err, Error::Denied(_)), "{err:?}");
    let ok = meta
        .cas_ref("main", oid(1), oid(2), "commit", "a", "a", true, 3)
        .unwrap();
    assert!(matches!(ok, CasResult::Updated { .. }));
}

#[test]
fn reserved_names_are_typed_and_tags_are_seal_only() {
    let mut meta = Meta::new();
    assert!(matches!(
        meta.insert_ref("heads/a", oid(1), "tree", false, false, "a", "x", 1),
        Err(Error::Invalid(_))
    ));
    assert!(matches!(
        meta.insert_ref("conflicts/x", oid(2), "commit", false, false, "a", "x", 1),
        Err(Error::Invalid(_))
    ));
    assert!(matches!(
        meta.insert_ref("tags/fake", oid(3), "snapshot", true, true, "a", "x", 1),
        Err(Error::Denied(_))
    ));
}

#[test]
fn malformed_names_and_kind_changes_fail() {
    let mut meta = Meta::new();
    for bad in ["", "/abs", "a/", "a//b", "a/./b", "a/../b", "a:b", "a\\b"] {
        assert!(
            matches!(
                meta.insert_ref(bad, oid(1), "commit", false, false, "a", "x", 1),
                Err(Error::Invalid(_))
            ),
            "{bad:?}"
        );
    }
    meta.insert_ref("heads/a", oid(1), "commit", false, false, "a", "x", 1)
        .unwrap();
    assert!(matches!(
        meta.cas_ref("heads/a", oid(1), oid(2), "tree", "a", "a", false, 2),
        Err(Error::Invalid(_))
    ));
}

#[test]
fn generic_ref_api_cannot_forge_reserved_tags() {
    let mut meta = Meta::new();
    let err = meta
        .insert_ref("tags/fake", oid(1), "commit", false, false, "x", "branch", 1)
        .unwrap_err();
    assert!(matches!(err, Error::Invalid(_) | Error::Denied(_)), "{err:?}");
}

#[test]
fn reserved_namespaces_enforce_object_kind() {
    let mut meta = Meta::new();

    assert!(meta
        .insert_ref("conflicts/main/c1", oid(1), "commit", false, false, "x", "test", 1)
        .is_err());
    assert!(meta
        .insert_ref("heads/a", oid(2), "tree", false, false, "x", "test", 1)
        .is_err());
    assert!(meta
        .insert_ref("forks/a/x/1", oid(3), "snapshot", false, false, "x", "test", 1)
        .is_err());
}

#[test]
fn ref_names_reject_path_tricks() {
    let mut meta = Meta::new();
    for name in ["", "/abs", "tail/", "a//b", "a/../b", "a/./b"] {
        let err = meta
            .insert_ref(name, oid(1), "commit", false, false, "x", "test", 1)
            .unwrap_err();
        assert!(matches!(err, Error::Invalid(_) | Error::Denied(_)), "{name}: {err:?}");
    }
}

#[test]
fn cas_cannot_change_head_kind() {
    let mut meta = Meta::new();
    meta.insert_ref("heads/a", oid(1), "commit", false, false, "x", "test", 1)
        .unwrap();
    let err = meta
        .cas_ref("heads/a", oid(1), oid(2), "tree", "x", "x", false, 2)
        .unwrap_err();
    assert!(matches!(err, Error::Invalid(_) | Error::Denied(_)), "{err:?}");
}

#[test]
fn successful_checkin_moves_ref_and_clears_session_state_together() {
    let mut meta = Meta::new();
    seed(&mut meta, "ns", "shared", oid(1), oid(1));
    let r = meta
        .cas_ref_session("shared", oid(1), oid(2), "a", "a", "ns", "/", &[], 2)
        .unwrap();
    assert!(matches!(r, CasResult::Updated { .. }));
    assert_eq!(meta.get_ref("shared").unwrap().unwrap().oid, oid(2));
    assert_eq!(meta.get_namespace("ns").unwrap().pinned_oid, Some(oid(2)));
    assert!(meta.overlay_list("ns", "/").unwrap().is_empty());
    assert!(meta.observations("ns").unwrap().is_empty());
    assert_eq!(meta.list_mounts("ns").unwrap()[0].base_oid, Some(oid(2)));
}

#[test]
fn stale_checkin_forks_and_retargets_mount_atomically() {
    let mut meta = Meta::new();
    seed(&mut meta, "ns", "shared", oid(1), oid(2));
    let r = meta
        .cas_ref_session("shared", oid(1), oid(3), "a", "a", "ns", "/", &[], 2)
        .unwrap();
    let CasResult::Forked { fork, .. } = r else {
        panic!("expected fork")
    };
    assert_eq!(meta.get_ref("shared").unwrap().unwrap().oid, oid(2));
    assert_eq!(meta.get_ref(&fork).unwrap().unwrap().oid, oid(3));
    assert_eq!(meta.get_namespace("ns").unwrap().pinned_oid, Some(oid(3)));
    let mounts = meta.list_mounts("ns").unwrap();
    assert_eq!(
        mounts.iter().find(|m| m.path == "/").unwrap().spec,
        format!("ref:{fork}")
    );
    assert!(meta.overlay_list("ns", "/").unwrap().is_empty());
    assert!(meta.observations("ns").unwrap().is_empty());
}

#[test]
fn lost_cas_fork_retargets_the_session_atomically() {
    let mut meta = Meta::new();
    let live = "heads/agents/a/ns1";
    meta.create_session("ns1", "a", oid(1), live, false, 1).unwrap();
    meta.cas_ref(live, oid(1), oid(3), "commit", "other", "other", false, 2)
        .unwrap();
    meta.overlay_upsert("ns1", "/", "f", Some(oid(9)), false)
        .unwrap();

    let result = meta
        .cas_ref_session(live, oid(1), oid(2), "a", "a", "ns1", "/", &[], 3)
        .unwrap();
    let CasResult::Forked { fork, ours, theirs, .. } = result else {
        panic!("expected fork");
    };
    assert_eq!(ours, oid(2));
    assert_eq!(theirs, oid(3));
    assert_eq!(meta.get_ref(&fork).unwrap().unwrap().oid, oid(2));
    let ns = meta.get_namespace("ns1").unwrap();
    assert_eq!(ns.pinned_oid, Some(oid(2)));
    assert_eq!(ns.live_ref.as_deref(), Some(fork.as_str()));
    assert_eq!(
        meta.list_mounts("ns1")
            .unwrap()
            .iter()
            .find(|m| m.path == "/")
            .unwrap()
            .spec,
        format!("ref:{fork}")
    );
    assert!(meta.overlay_list("ns1", "/").unwrap().is_empty());
}

#[test]
fn a_committed_write_is_visible_to_the_next_read_connection_query() {
    let mut meta = Meta::new();
    let a = ObjectId([1; 32]);
    let b = ObjectId([2; 32]);

    meta.insert_ref("heads/x", a, "commit", false, false, "t", "init", 1)
        .unwrap();
    assert_eq!(meta.get_ref("heads/x").unwrap().unwrap().oid, a);

    meta.cas_ref("heads/x", a, b, "commit", "t", "t", false, 2)
        .unwrap();
    assert_eq!(meta.get_ref("heads/x").unwrap().unwrap().oid, b);

    meta.insert_namespace("ns", "agent", b, "heads/x", 3).unwrap();
    meta.insert_mount("ns", "/", "ref:heads/x", "rw", Some(b))
        .unwrap();
    assert_eq!(meta.list_mounts("ns").unwrap().len(), 1);
    meta.observe("ns", "/", "a.txt", Observed::Blob(a));
    assert_eq!(meta.observations("ns").unwrap().len(), 1);
    meta.observations_clear("ns");
    assert!(meta.observations("ns").unwrap().is_empty());
}

#[test]
fn repeated_observations_keep_one_row() {
    let mut meta = Meta::new();
    meta.observe("ns", "/", "a.txt", Observed::Blob(oid(7)));
    meta.observe("ns", "/", "a.txt", Observed::Blob(oid(7)));
    assert_eq!(meta.observations("ns").unwrap().len(), 1);
    meta.observe("ns", "/", "a.txt", Observed::Blob(oid(8)));
    let rows = meta.observations("ns").unwrap();
    assert_eq!(rows.len(), 1, "one path, one row");
    assert_eq!(rows[0].seen.oid(), Some(oid(8)));
    meta.observe("ns", "/", "a.txt", Observed::Absent);
    assert_eq!(meta.observations("ns").unwrap()[0].seen.kind(), "absent");
    meta.observe("ns", "/other", "a.txt", Observed::Tree(oid(1)));
    assert_eq!(meta.observations("ns").unwrap().len(), 2);
    assert_eq!(Observed::Tree(oid(1)).describe(), format!("tree {}", oid(1).hex()));
}

#[test]
fn a_fork_is_named_after_the_ref_the_agent_and_its_ulid() {
    let mut meta = Meta::new();
    meta.insert_ref("heads/a", oid(1), "commit", false, false, "a", "init", 1)
        .unwrap();
    let r = meta
        .cas_ref_as("heads/a", oid(5), oid(2), "commit", "a", "agent one", false, &[oid(6)], 2, ULID)
        .unwrap();
    let fork = format!("forks/heads/a/agent_one/{ULID}");
    assert_eq!(
        r,
        CasResult::Forked {
            requested: "heads/a".to_string(),
            fork: fork.clone(),
            ours: oid(2),
            theirs: oid(1),
        }
    );
    let log = meta.reflog(&fork, 10).unwrap();
    assert_eq!(log, vec![(Some(oid(1)), oid(2), "a".to_string(), "fork".to_string())]);
    assert_eq!(meta.intro_get(oid(6)).as_deref(), Some("a"));
    // The same fork again is refused, and nothing changes.
    let again = meta
        .cas_ref_as("heads/a", oid(5), oid(3), "commit", "a", "agent one", false, &[oid(7)], 3, ULID)
        .unwrap_err();
    assert!(matches!(again, Error::Invalid(_)), "{again:?}");
    assert_eq!(meta.get_ref(&fork).unwrap().unwrap().oid, oid(2));
    assert!(meta.intro_get(oid(7)).is_none());
    assert_eq!(meta.stats().cas_forked, 1);
}

#[test]
fn a_failed_checkin_changes_nothing() {
    let mut meta = Meta::new();
    seed(&mut meta, "ns", "shared", oid(1), oid(2));
    // A stale checkin at a mount that is not there.
    let error = meta
        .cas_ref_session("shared", oid(1), oid(3), "a", "a", "ns", "/none", &[oid(5)], 2)
        .unwrap_err();
    assert_eq!(error.message(), "corrupt: missing checkin mount ns:/none");
    // A checkin of a session that is not there.
    let error = meta
        .cas_ref_session("shared", oid(2), oid(3), "a", "a", "gone", "/", &[oid(5)], 2)
        .unwrap_err();
    assert_eq!(error.message(), "corrupt: missing namespace gone");
    assert_eq!(meta.get_ref("shared").unwrap().unwrap().oid, oid(2));
    assert_eq!(meta.list_refs().unwrap().len(), 1);
    assert_eq!(meta.overlay_list("ns", "/").unwrap().len(), 1);
    assert_eq!(meta.observations("ns").unwrap().len(), 1);
    assert_eq!(meta.get_namespace("ns").unwrap().pinned_oid, Some(oid(1)));
    assert!(meta.intro_get(oid(5)).is_none());
}

#[test]
fn sessions_cannot_move_what_they_must_not() {
    let mut meta = Meta::new();
    seed(&mut meta, "ns", "shared", oid(1), oid(1));
    meta.insert_ref("main", oid(1), "commit", true, false, "a", "init", 1)
        .unwrap();
    meta.insert_ref("frozen", oid(1), "commit", false, true, "a", "init", 1)
        .unwrap();
    meta.insert_ref("listing", oid(1), "tree", false, false, "a", "init", 1)
        .unwrap();
    let check = |meta: &mut Meta, name: &str| {
        meta.cas_ref_session(name, oid(1), oid(2), "a", "a", "ns", "/", &[], 2)
            .unwrap_err()
    };
    assert!(matches!(check(&mut meta, "main"), Error::Denied(_)));
    assert!(matches!(check(&mut meta, "frozen"), Error::Sealed(_)));
    assert!(matches!(check(&mut meta, "listing"), Error::Invalid(_)));
    assert!(matches!(check(&mut meta, "absent"), Error::NotFound(_)));
}

#[test]
fn a_session_is_made_whole_or_not_at_all() {
    let mut meta = Meta::new();
    let live = "heads/agents/a/ns1";
    meta.create_session("ns1", "a", oid(1), live, true, 1).unwrap();
    let mounts = meta.list_mounts("ns1").unwrap();
    assert_eq!(mounts.len(), 2);
    assert_eq!(mounts[0].spec, format!("ref:{live}"));
    assert_eq!(mounts[0].base_oid, Some(oid(1)));
    assert_eq!((mounts[1].path.as_str(), mounts[1].mode.as_str()), ("/main", "ro"));
    assert_eq!(mounts[1].base_oid, None);
    assert_eq!(meta.reflog(live, 10).unwrap()[0].3, "session");
    // The same session, or the same head, is refused.
    assert!(meta.create_session("ns1", "a", oid(2), "heads/other", false, 2).is_err());
    assert!(meta.create_session("ns2", "a", oid(2), live, false, 2).is_err());
    assert!(matches!(meta.get_namespace("ns2"), Err(Error::NotFound(_))));
    assert!(meta.get_ref("heads/other").unwrap().is_none());
    assert_eq!(meta.list_namespaces().unwrap().len(), 1);
}

#[test]
fn a_checkin_without_changes_moves_no_ref() {
    let mut meta = Meta::new();
    seed(&mut meta, "ns", "shared", oid(1), oid(1));
    meta.complete_noop_session("ns", "/", oid(1)).unwrap();
    assert_eq!(meta.stats().cas_noop, 1);
    assert!(meta.overlay_list("ns", "/").unwrap().is_empty());
    assert_eq!(meta.reflog("shared", 10).unwrap().len(), 1);
    assert!(matches!(meta.complete_noop_session("gone", "/", oid(1)), Err(Error::Corrupt(_))));
}

#[test]
fn staged_paths_describe_one_tree() {
    let mut meta = Meta::new();
    meta.overlay_upsert("ns", "/", "a/b", Some(oid(1)), false).unwrap();
    for bad in ["a", "a/b/c"] {
        let error = meta.overlay_upsert("ns", "/", bad, None, false).unwrap_err();
        assert_eq!(
            error.message(),
            format!("invalid: overlay path conflict: {bad} and a/b cannot coexist")
        );
    }
    // The same path, a sibling, and another mount are fine.
    meta.overlay_upsert("ns", "/", "a/b", None, false).unwrap();
    meta.overlay_upsert("ns", "/", "a/bc", Some(oid(2)), true).unwrap();
    meta.overlay_upsert("ns", "/m", "a", Some(oid(3)), false).unwrap();
    let rows = meta.overlay_list("ns", "/").unwrap();
    assert_eq!(rows.len(), 2);
    assert_eq!(rows[0].blob_oid, None);
    assert_eq!((rows[1].path.as_str(), rows[1].executable), ("a/bc", true));
    meta.overlay_clear("ns", "/");
    assert!(meta.overlay_list("ns", "/").unwrap().is_empty());
    assert_eq!(meta.overlay_list("ns", "/m").unwrap().len(), 1);
}

#[test]
fn a_retired_fork_leaves_its_log_and_never_comes_back() {
    let mut meta = Meta::new();
    let fork = format!("forks/heads/a/x/{ULID}");
    meta.insert_ref(&fork, oid(4), "commit", false, false, "a", "fork", 1)
        .unwrap();
    assert!(matches!(meta.abandon_ref("heads/a", "a", 2), Err(Error::Invalid(_))));
    assert!(matches!(meta.abandon_ref("forks/none", "a", 2), Err(Error::NotFound(_))));
    let gone = meta.abandon_ref(&fork, "b", 2).unwrap();
    assert_eq!((gone.oid, gone.kind.as_str(), gone.agent_id.as_str(), gone.ts_ms), (oid(4), "commit", "b", 2));
    assert!(meta.get_ref(&fork).unwrap().is_none());
    assert_eq!(
        meta.reflog(&fork, 1).unwrap(),
        vec![(Some(oid(4)), oid(4), "b".to_string(), "abandon".to_string())]
    );
    assert_eq!(
        meta.abandon_ref(&fork, "b", 3).unwrap_err().message(),
        format!("invalid: ref {fork} is already abandoned")
    );
    assert!(meta.insert_ref(&fork, oid(5), "commit", false, false, "a", "x", 3).is_err());
    assert!(meta
        .insert_ref_with_intros(&fork, oid(5), "commit", false, false, "a", "x", &[], 3)
        .is_err());
    assert!(meta.cas_ref(&fork, oid(4), oid(5), "commit", "a", "a", false, 3).is_err());
    assert_eq!(
        meta.create_session("late", "a", oid(5), &fork, true, 3).unwrap_err().message(),
        format!("invalid: ref {fork} was abandoned; the name is retired and cannot be recreated")
    );
    assert!(meta.get_namespace("late").is_err());
}

#[test]
fn a_fork_in_use_is_not_retired() {
    let mut meta = Meta::new();
    let fork = "forks/heads/a/x/1";
    meta.insert_ref(fork, oid(4), "commit", false, false, "a", "fork", 1).unwrap();
    meta.insert_namespace("ns", "a", oid(4), fork, 1).unwrap();
    assert!(meta.abandon_ref(fork, "a", 2).unwrap_err().message().contains("live head"));
    meta.abandon_session("ns", false).unwrap();
    meta.insert_mount("other", "/", "ref:forks/heads/a/x/1", "ro", None).unwrap();
    assert!(meta.abandon_ref(fork, "a", 2).unwrap_err().message().contains("still mounted"));
    meta.update_mount_spec("other", "/", "ref:main");
    assert!(meta.abandon_ref(fork, "a", 2).is_ok());
    meta.insert_ref("forks/kept", oid(4), "commit", true, false, "a", "fork", 1).unwrap();
    assert!(matches!(meta.abandon_ref("forks/kept", "a", 2), Err(Error::Denied(_))));
    meta.insert_ref("forks/frozen", oid(4), "commit", false, true, "a", "fork", 1).unwrap();
    assert!(matches!(meta.abandon_ref("forks/frozen", "a", 2), Err(Error::Sealed(_))));
}

#[test]
fn staged_work_is_discarded_only_by_choice() {
    let mut meta = Meta::new();
    seed(&mut meta, "ns", "shared", oid(1), oid(1));
    let error = meta.abandon_session("ns", false).unwrap_err();
    assert!(error.message().contains("has 1 staged overlay entries"), "{error:?}");
    let gone = meta.abandon_session("ns", true).unwrap();
    assert_eq!(
        (gone.discarded_overlay, gone.removed_mounts, gone.removed_observations),
        (1, 1, 1)
    );
    assert!(matches!(meta.abandon_session("ns", true), Err(Error::NotFound(_))));
    assert!(meta.get_ref("shared").unwrap().is_some(), "the head stays");
}

#[test]
fn a_seal_is_published_whole_and_once() {
    let mut meta = Meta::new();
    meta.commit_seal("v1", oid(1), oid(2), oid(3), "sealer", 1).unwrap();
    let tag = meta.get_ref("tags/v1").unwrap().unwrap();
    assert!(tag.protected && tag.sealed);
    assert_eq!((tag.kind.as_str(), tag.oid), ("snapshot", oid(1)));
    assert_eq!(meta.get_seal("v1").unwrap(), Some((oid(1), oid(2), oid(3))));
    assert_eq!(
        meta.list_landmarks().unwrap(),
        vec![(oid(1), "snapshot".to_string()), (oid(2), "commit".to_string())]
    );
    assert!(matches!(
        meta.commit_seal("v1", oid(4), oid(5), oid(6), "sealer", 2),
        Err(Error::Sealed(t)) if t == "tags/v1"
    ));
    // Another tag of the same snapshot is refused, and leaves nothing behind.
    assert!(matches!(
        meta.insert_seal("v2", oid(1), oid(2), oid(3), 2),
        Err(Error::Invalid(_))
    ));
    assert!(meta.get_ref("tags/v2").unwrap().is_none());
    assert!(meta.reflog("tags/v2", 10).unwrap().is_empty());
    assert!(meta.get_seal("v2").unwrap().is_none());
    assert!(matches!(
        meta.cas_ref("tags/v1", oid(1), oid(2), "snapshot", "a", "a", true, 3),
        Err(Error::Denied(_))
    ));
    assert_eq!(
        meta.list_seals().unwrap(),
        vec![("v1".to_string(), oid(1), oid(2), oid(3))]
    );
}

#[test]
fn landmarks_and_introductions_keep_the_first() {
    let mut meta = Meta::new();
    meta.landmark(oid(1), "commit", "first", 1);
    meta.landmark(oid(1), "tree", "second", 2);
    assert_eq!(meta.list_landmarks().unwrap(), vec![(oid(1), "commit".to_string())]);
    meta.intro_insert(oid(2), oid(9), "a", 1);
    meta.intro_insert_many(&[oid(2), oid(3)], oid(8), "b", 2);
    assert_eq!(meta.intro_get(oid(2)).as_deref(), Some("a"));
    assert_eq!(meta.intro_get(oid(3)).as_deref(), Some("b"));
    assert_eq!(meta.intro_get(oid(4)), None);
}

#[test]
fn lists_come_in_order() {
    let mut meta = Meta::new();
    for name in ["heads/b", "heads/a", "main"] {
        meta.insert_ref(name, oid(1), "commit", false, false, "a", "x", 1).unwrap();
    }
    let names: Vec<String> = meta.list_refs().unwrap().into_iter().map(|r| r.name).collect();
    assert_eq!(names, ["heads/a", "heads/b", "main"]);
    meta.cas_ref("main", oid(1), oid(2), "commit", "a", "a", false, 2).unwrap();
    meta.cas_ref("main", oid(2), oid(3), "commit", "a", "a", false, 3).unwrap();
    let log = meta.reflog("main", 2).unwrap();
    assert_eq!((log[0].0, log[0].1), (Some(oid(2)), oid(3)));
    assert_eq!((log[1].0, log[1].1), (Some(oid(1)), oid(2)));
    meta.set_pin("none", oid(1));
    assert!(meta.list_namespaces().unwrap().is_empty());
}

/// Mounts from before mounts had bases are each pinned to what they show.
#[test]
fn every_read_write_mount_gets_its_own_base() {
    let mut meta = Meta::new();
    meta.insert_ref("base", oid(1), "commit", false, false, "a", "x", 1).unwrap();
    meta.insert_ref("other", oid(2), "commit", false, false, "a", "x", 1).unwrap();
    meta.insert_namespace("ns", "a", oid(7), "base", 1).unwrap();
    let snap = format!("oid:{}", oid(3).hex());
    for (path, spec, mode) in [
        ("/", "ref:base", "rw"),
        ("/src", "base", "rw"),
        ("/other", "ref:other", "rw"),
        ("/dep", "ref:other", "ro"),
        ("/snap", snap.as_str(), "rw"),
        ("/lost", "ref:absent", "rw"),
    ] {
        meta.insert_mount("ns", path, spec, mode, None).unwrap();
    }
    meta.tables.pin_mounts();
    let mounts = meta.list_mounts("ns").unwrap();
    let bases: Vec<Option<ObjectId>> = mounts.iter().map(|m| m.base_oid).collect();
    assert_eq!(bases, [Some(oid(7)), Some(oid(7)), Some(oid(2)), None, None, None]);
    assert_eq!(mounts[4].mode, "ro", "a read-write mount of an object becomes read only");
    assert_eq!(mounts[2].mode, "rw");
    assert_eq!(meta.get_namespace("ns").unwrap().pinned_oid, Some(oid(7)));
    assert!(meta.insert_mount("ns", "/", "ref:base", "rx", None).is_err());
}

#[test]
fn names_and_agents() {
    assert_eq!(sanitize_agent("a b/c"), "a_b_c");
    assert_eq!(sanitize_agent(""), "anon");
    assert!(validate_ref_name("heads/a").is_ok());
    assert!(validate_ref_name(&"x".repeat(513)).is_err());
    assert!(validate_ref_kind(&format!("inbox/agent/{ULID}"), "snapshot").is_ok());
    assert!(validate_ref_kind(&format!("inbox/a b/{ULID}"), "snapshot").is_err());
    assert!(validate_ref_kind("inbox/agent/short", "snapshot").is_err());
    assert_eq!(
        validate_ref_kind("main", "tree").unwrap_err().message(),
        "invalid: ref main requires kind commit, got tree"
    );
    assert_eq!(
        validate_ref_name("a\"b:").unwrap_err().message(),
        "invalid: invalid ref name \"a\\\"b:\""
    );
}

#[test]
fn cas_stats_classify_committed_outcomes() {
    let mut meta = Meta::new();
    let (a, b, c) = (oid(1), oid(2), oid(3));
    meta.insert_ref("heads/test", a, "commit", false, false, "test", "init", 1)
        .unwrap();
    let updated = meta
        .cas_ref("heads/test", a, b, "commit", "test", "test", false, 2)
        .unwrap();
    assert!(matches!(updated, CasResult::Updated { .. }));
    let forked = meta
        .cas_ref("heads/test", a, c, "commit", "test", "test", false, 3)
        .unwrap();
    assert!(matches!(forked, CasResult::Forked { .. }));
    meta.insert_ref("heads/protected", a, "commit", true, false, "test", "init", 4)
        .unwrap();
    let denied = meta
        .cas_ref("heads/protected", a, b, "commit", "test", "test", false, 5)
        .unwrap_err();
    assert!(matches!(denied, Error::Denied(_)));
    let stats = meta.stats();
    assert_eq!(stats.cas_updated, 1);
    assert_eq!(stats.cas_forked, 1);
    assert_eq!(stats.cas_denied, 1);
    // Of five attempts the refused one committed nothing.
    assert_eq!(stats.explicit_txn_count, 5);
    assert_eq!(stats.txn_count, 4);
    assert_eq!(stats.lock_acquires, 5);
    assert_eq!(
        stats.write_lock_acquires + stats.read_lock_acquires,
        stats.lock_acquires,
        "the summed lock pair must be exactly its two halves"
    );
    assert_eq!(
        stats.write_lock_wait_us + stats.read_lock_wait_us,
        stats.lock_wait_us
    );
    assert_eq!(
        stats.sqlite_accounted_us(),
        stats.lock_wait_us.saturating_add(stats.txn_us)
    );
}

#[test]
fn a_read_heavy_phase_reports_the_write_transactions_it_ran() {
    let mut meta = Meta::new();
    assert_eq!(meta.stats().txn_count, 0);
    const READS: u64 = 64;
    for i in 0..READS {
        meta.observe("ns", "/", &format!("f{i}.txt"), Observed::Blob(oid(7)));
    }
    let after = meta.stats();
    assert_eq!(after.explicit_txn_count, 0);
    assert_eq!(after.txn_count, READS);
}

#[test]
fn every_write_takes_one_connection_and_an_observation_reads_first() {
    let mut meta = Meta::new();
    meta.insert_ref("heads/x", oid(1), "commit", false, false, "t", "init", 1).unwrap();
    meta.landmark(oid(1), "commit", "kept", 2);
    meta.observe("ns", "/", "a", Observed::Blob(oid(7)));
    meta.observe("ns", "/", "a", Observed::Blob(oid(7)));
    assert!(meta.insert_ref("tags/x", oid(1), "snapshot", false, false, "t", "init", 3).is_err());
    let stats = meta.stats();
    assert_eq!(stats.write_lock_acquires, 3);
    assert_eq!(stats.read_lock_acquires, 2);
    assert_eq!(stats.lock_acquires, 5);
    assert_eq!(stats.txn_count, 3);
}

#[test]
fn a_skipped_no_op_observation_commits_nothing_and_counts_nothing() {
    let mut meta = Meta::new();
    meta.observe("ns", "/", "a.txt", Observed::Blob(oid(9)));
    let after_first = meta.stats().txn_count;
    assert_eq!(after_first, 1);
    for _ in 0..16 {
        meta.observe("ns", "/", "a.txt", Observed::Blob(oid(9)));
    }
    assert_eq!(meta.stats().txn_count, after_first);
}

#[test]
fn an_explicit_transaction_counts_once_and_a_refused_one_not_at_all() {
    let mut meta = Meta::new();
    let (a, b) = (oid(1), oid(2));
    meta.insert_ref("heads/x", a, "commit", false, false, "t", "init", 1)
        .unwrap();
    let after_insert = meta.stats();
    assert_eq!(after_insert.txn_count, 1, "two rows, one transaction");
    assert_eq!(after_insert.explicit_txn_count, 1);
    meta.insert_ref("heads/protected", a, "commit", true, false, "t", "init", 2)
        .unwrap();
    let before_denied = meta.stats();
    meta.cas_ref("heads/protected", a, b, "commit", "t", "t", false, 3)
        .unwrap_err();
    let after_denied = meta.stats();
    assert_eq!(after_denied.txn_count, before_denied.txn_count);
    assert_eq!(
        after_denied.explicit_txn_count,
        before_denied.explicit_txn_count + 1
    );
    meta.insert_ref("tags/x", a, "snapshot", false, false, "t", "init", 4)
        .unwrap_err();
    assert_eq!(
        meta.stats().explicit_txn_count,
        after_denied.explicit_txn_count,
        "a name that is refused begins no transaction"
    );
}

#[test]
fn a_mixed_phase_separates_explicit_transactions_from_autocommit_writes() {
    let mut meta = Meta::new();
    let (a, b) = (oid(1), oid(2));
    meta.insert_ref("heads/x", a, "commit", false, false, "t", "init", 1)
        .unwrap();
    meta.cas_ref("heads/x", a, b, "commit", "t", "t", false, 2)
        .unwrap();
    for i in 0..8 {
        meta.observe("ns", "/", &format!("f{i}.txt"), Observed::Blob(a));
    }
    let stats = meta.stats();
    assert_eq!(stats.explicit_txn_count, 2, "insert_ref and cas_ref");
    assert_eq!(stats.txn_count, 10);
    assert!(stats.txn_count > stats.explicit_txn_count);
}
