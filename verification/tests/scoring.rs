use isuports::error::ApiError;
use isuports::platform::Platform;
use isuports::viewer::Role;
use isuports::viewer::Viewer;

fn admin_viewer() -> Viewer {
    Viewer {
        role: Role::Admin,
        player_id: String::new(),
        tenant_id: 0,
        tenant_name: "admin".to_string(),
    }
}

fn organizer(tenant_id: i64) -> Viewer {
    Viewer {
        role: Role::Organizer,
        player_id: String::new(),
        tenant_id,
        tenant_name: "t".to_string(),
    }
}

fn player(tenant_id: i64, player_id: &str) -> Viewer {
    Viewer {
        role: Role::Player,
        player_id: player_id.to_string(),
        tenant_id,
        tenant_name: "t".to_string(),
    }
}

/// One tenant with three players and one competition; returns the platform,
/// the player ids and the competition id.
fn setup() -> (Platform, Vec<String>, String) {
    let mut p = Platform::new();
    let admin = admin_viewer();
    let tb = p.add_tenant(&admin, "acme", "Acme Inc", 10).unwrap();
    assert_eq!(tb.id, "1");
    let org = organizer(1);
    let names = vec!["p1".to_string(), "p2".to_string(), "p3".to_string()];
    let pds = p.players_add(&org, &names, 20).unwrap();
    let ids: Vec<String> = pds.iter().map(|d| d.id.clone()).collect();
    let cd = p.competitions_add(&org, "spring cup", 30).unwrap();
    (p, ids, cd.id)
}

fn upload(rows: &[(&str, &str)]) -> Vec<(String, String)> {
    rows.iter().map(|(a, b)| (a.to_string(), b.to_string())).collect()
}

#[test]
fn tie_break_determinism() {
    let (mut p, ids, comp) = setup();
    let org = organizer(1);
    let rows = upload(&[(&ids[0], "50"), (&ids[1], "50"), (&ids[2], "70")]);
    assert_eq!(p.ingest_scores(&org, &comp, &rows, 40).unwrap(), 3);
    let viewer = player(1, &ids[0]);
    let (_, page) = p.competition_ranking(&viewer, &comp, 0, 50).unwrap();
    assert_eq!(page.len(), 3);
    assert_eq!(page[0].player_id, ids[2]);
    assert_eq!(page[0].rank, 1);
    assert_eq!(page[0].score, 70);
    assert_eq!(page[1].player_id, ids[0]);
    assert_eq!(page[1].rank, 2);
    assert_eq!(page[1].score, 50);
    assert_eq!(page[2].player_id, ids[1]);
    assert_eq!(page[2].rank, 3);
    assert_eq!(page[2].score, 50);
    assert_eq!(page[0].player_display_name, "p3");
}

#[test]
fn idempotent_full_replace() {
    let (mut p, ids, comp) = setup();
    let org = organizer(1);
    let rows = upload(&[(&ids[0], "50"), (&ids[1], "50"), (&ids[2], "70")]);
    assert_eq!(p.ingest_scores(&org, &comp, &rows, 40).unwrap(), 3);
    let viewer = player(1, &ids[0]);
    let (_, page1) = p.competition_ranking(&viewer, &comp, 0, 41).unwrap();
    assert_eq!(p.ingest_scores(&org, &comp, &rows, 42).unwrap(), 3);
    let (_, page2) = p.competition_ranking(&viewer, &comp, 0, 43).unwrap();
    assert_eq!(page1.len(), page2.len());
    for (a, b) in page1.iter().zip(page2.iter()) {
        assert_eq!(a.rank, b.rank);
        assert_eq!(a.score, b.score);
        assert_eq!(a.player_id, b.player_id);
        assert_eq!(a.player_display_name, b.player_display_name);
    }
}

#[test]
fn versioning_last_upload_wins() {
    let (mut p, ids, comp) = setup();
    let org = organizer(1);
    let first = upload(&[(&ids[0], "10")]);
    assert_eq!(p.ingest_scores(&org, &comp, &first, 40).unwrap(), 1);
    let second = upload(&[(&ids[0], "20"), (&ids[1], "5")]);
    assert_eq!(p.ingest_scores(&org, &comp, &second, 41).unwrap(), 2);
    let viewer = player(1, &ids[0]);
    let (_, page) = p.competition_ranking(&viewer, &comp, 0, 50).unwrap();
    assert_eq!(page.len(), 2);
    assert_eq!(page[0].player_id, ids[0]);
    assert_eq!(page[0].score, 20);
    assert_eq!(page[0].rank, 1);
    assert_eq!(page[1].player_id, ids[1]);
    assert_eq!(page[1].score, 5);
}

#[test]
fn versioning_within_one_upload() {
    let (mut p, ids, comp) = setup();
    let org = organizer(1);
    let rows = upload(&[(&ids[0], "90"), (&ids[1], "40"), (&ids[0], "30")]);
    assert_eq!(p.ingest_scores(&org, &comp, &rows, 40).unwrap(), 3);
    let viewer = player(1, &ids[0]);
    let (_, page) = p.competition_ranking(&viewer, &comp, 0, 50).unwrap();
    // the later row (30) is authoritative for p1, so p2 leads
    assert_eq!(page.len(), 2);
    assert_eq!(page[0].player_id, ids[1]);
    assert_eq!(page[0].score, 40);
    assert_eq!(page[1].player_id, ids[0]);
    assert_eq!(page[1].score, 30);
}

#[test]
fn reader_sees_old_or_new_set_never_a_mix() {
    let (mut p, ids, comp) = setup();
    let org = organizer(1);
    let viewer = player(1, &ids[0]);
    let old_rows = upload(&[(&ids[0], "1"), (&ids[1], "2")]);
    p.ingest_scores(&org, &comp, &old_rows, 40).unwrap();
    let (_, before) = p.competition_ranking(&viewer, &comp, 0, 41).unwrap();
    let new_rows = upload(&[(&ids[2], "9")]);
    p.ingest_scores(&org, &comp, &new_rows, 42).unwrap();
    let (_, after) = p.competition_ranking(&viewer, &comp, 0, 43).unwrap();
    let before_ids: Vec<&str> = before.iter().map(|r| r.player_id.as_str()).collect();
    let after_ids: Vec<&str> = after.iter().map(|r| r.player_id.as_str()).collect();
    assert_eq!(before_ids, vec![ids[1].as_str(), ids[0].as_str()]);
    assert_eq!(after_ids, vec![ids[2].as_str()]);
}

#[test]
fn ingest_rejections() {
    let (mut p, ids, comp) = setup();
    let org = organizer(1);
    let unknown = upload(&[("nosuch", "5")]);
    assert_eq!(p.ingest_scores(&org, &comp, &unknown, 40), Err(ApiError::PlayerNotFound));
    let bad_score = upload(&[(&ids[0], "ten")]);
    assert_eq!(p.ingest_scores(&org, &comp, &bad_score, 41), Err(ApiError::InvalidScore));
    assert_eq!(
        p.ingest_scores(&org, "nope", &upload(&[]), 42),
        Err(ApiError::CompetitionNotFound)
    );
    let viewer = player(1, &ids[0]);
    assert_eq!(p.ingest_scores(&viewer, &comp, &upload(&[]), 43), Err(ApiError::Forbidden));
    p.competition_finish(&org, &comp, 50).unwrap();
    assert_eq!(
        p.ingest_scores(&org, &comp, &upload(&[(&ids[0], "5")]), 51),
        Err(ApiError::CompetitionFinished)
    );
}

#[test]
fn billing_gating_unfinished_counts_zero() {
    let (mut p, ids, comp) = setup();
    let org = organizer(1);
    let rows = upload(&[(&ids[0], "50")]);
    p.ingest_scores(&org, &comp, &rows, 40).unwrap();
    let viewer = player(1, &ids[1]);
    p.competition_ranking(&viewer, &comp, 0, 41).unwrap();
    let rep = p.billing_report_for(1, &comp).unwrap();
    assert_eq!(rep.competition_id, comp);
    assert_eq!(rep.competition_title, "spring cup");
    assert_eq!(rep.player_count, 0);
    assert_eq!(rep.visitor_count, 0);
    assert_eq!(rep.billing_yen, 0);
}

#[test]
fn billing_classification_and_stability() {
    let (mut p, ids, comp) = setup();
    let org = organizer(1);
    // ids[0] scores (and also visits); ids[1] only visits before the finish;
    // ids[2] visits only after the finish.
    let rows = upload(&[(&ids[0], "50")]);
    p.ingest_scores(&org, &comp, &rows, 40).unwrap();
    p.competition_ranking(&player(1, &ids[0]), &comp, 0, 41).unwrap();
    p.competition_ranking(&player(1, &ids[1]), &comp, 0, 42).unwrap();
    p.competition_finish(&org, &comp, 100).unwrap();
    p.competition_ranking(&player(1, &ids[2]), &comp, 0, 200).unwrap();
    let rep = p.billing_report_for(1, &comp).unwrap();
    assert_eq!(rep.player_count, 1);
    assert_eq!(rep.visitor_count, 1);
    assert_eq!(rep.billing_player_yen, 100);
    assert_eq!(rep.billing_visitor_yen, 10);
    assert_eq!(rep.billing_yen, 110);
    // stable over unchanged data
    let rep2 = p.billing_report_for(1, &comp).unwrap();
    assert_eq!(rep.player_count, rep2.player_count);
    assert_eq!(rep.visitor_count, rep2.visitor_count);
    assert_eq!(rep.billing_yen, rep2.billing_yen);
}

#[test]
fn billing_reports_and_tenant_listing() {
    let (mut p, ids, comp) = setup();
    let org = organizer(1);
    let rows = upload(&[(&ids[0], "50")]);
    p.ingest_scores(&org, &comp, &rows, 40).unwrap();
    p.competition_finish(&org, &comp, 100).unwrap();
    let reps = p.billing_reports(&org).unwrap();
    assert_eq!(reps.len(), 1);
    assert_eq!(reps[0].billing_yen, 100);

    let admin = admin_viewer();
    p.add_tenant(&admin, "beta", "Beta LLC", 110).unwrap();
    let list = p.tenants_billing(&admin, 0).unwrap();
    assert_eq!(list.len(), 2);
    assert_eq!(list[0].id, "2");
    assert_eq!(list[0].name, "beta");
    assert_eq!(list[0].billing_yen, 0);
    assert_eq!(list[1].id, "1");
    assert_eq!(list[1].billing_yen, 100);
    let bounded = p.tenants_billing(&admin, 2).unwrap();
    assert_eq!(bounded.len(), 1);
    assert_eq!(bounded[0].id, "1");
    assert!(matches!(p.tenants_billing(&org, 0), Err(ApiError::Forbidden)));
}

#[test]
fn ranking_pagination_and_disqualification() {
    let (mut p, ids, comp) = setup();
    let org = organizer(1);
    let rows = upload(&[(&ids[0], "3"), (&ids[1], "2"), (&ids[2], "1")]);
    p.ingest_scores(&org, &comp, &rows, 40).unwrap();
    let viewer = player(1, &ids[0]);
    let (_, page) = p.competition_ranking(&viewer, &comp, 1, 41).unwrap();
    assert_eq!(page.len(), 2);
    assert_eq!(page[0].rank, 2);
    assert_eq!(page[0].player_id, ids[1]);
    let (_, neg) = p.competition_ranking(&viewer, &comp, -5, 42).unwrap();
    assert_eq!(neg.len(), 3);
    let (_, past) = p.competition_ranking(&viewer, &comp, 99, 43).unwrap();
    assert_eq!(past.len(), 0);

    p.player_disqualified(&org, &ids[0], 50).unwrap();
    assert!(matches!(
        p.competition_ranking(&viewer, &comp, 0, 51),
        Err(ApiError::Disqualified)
    ));
    let stranger = player(1, "ghost");
    assert!(matches!(
        p.competition_ranking(&stranger, &comp, 0, 52),
        Err(ApiError::Unauthorized)
    ));
}

#[test]
fn player_detail_lists_authoritative_scores() {
    let (mut p, ids, comp) = setup();
    let org = organizer(1);
    let comp2 = p.competitions_add(&org, "summer cup", 35).unwrap().id;
    p.ingest_scores(&org, &comp, &upload(&[(&ids[0], "10"), (&ids[0], "11")]), 40).unwrap();
    p.ingest_scores(&org, &comp2, &upload(&[(&ids[1], "7")]), 41).unwrap();
    let viewer = player(1, &ids[0]);
    let (pd, scores) = p.player_detail(&viewer, &ids[0]).unwrap();
    assert_eq!(pd.id, ids[0]);
    assert_eq!(pd.display_name, "p1");
    assert!(!pd.is_disqualified);
    assert_eq!(scores.len(), 1);
    assert_eq!(scores[0].competition_title, "spring cup");
    assert_eq!(scores[0].score, 11);
    let (_, empty) = p.player_detail(&viewer, &ids[2]).unwrap();
    assert_eq!(empty.len(), 0);
    assert!(matches!(p.player_detail(&viewer, "nosuch"), Err(ApiError::PlayerNotFound)));
}

#[test]
fn tenant_management_and_listings() {
    let mut p = Platform::new();
    let admin = admin_viewer();
    assert!(matches!(
        p.add_tenant(&admin, "Bad Name", "x", 1),
        Err(ApiError::InvalidTenantName)
    ));
    p.add_tenant(&admin, "acme", "Acme", 1).unwrap();
    assert!(matches!(p.add_tenant(&admin, "acme", "Again", 2), Err(ApiError::DuplicateTenant)));
    let org = organizer(1);
    assert!(matches!(p.add_tenant(&org, "zeta", "Zeta", 3), Err(ApiError::Unauthorized)));
    let mut not_admin_role = admin_viewer();
    not_admin_role.role = Role::Organizer;
    assert!(matches!(p.add_tenant(&not_admin_role, "zeta", "Zeta", 3), Err(ApiError::Forbidden)));

    p.players_add(&org, &vec!["alice".to_string(), "bob".to_string()], 5).unwrap();
    let listed = p.players_list(&org).unwrap();
    assert_eq!(listed.len(), 2);
    assert_eq!(listed[0].display_name, "bob");
    assert_eq!(listed[1].display_name, "alice");

    p.competitions_add(&org, "one", 6).unwrap();
    let c2 = p.competitions_add(&org, "two", 7).unwrap();
    let comps = p.competitions_of(1).unwrap();
    assert_eq!(comps.len(), 2);
    assert_eq!(comps[0].title, "two");
    assert!(!comps[0].is_finished);
    p.competition_finish(&org, &c2.id, 8).unwrap();
    let comps2 = p.competitions_of(1).unwrap();
    assert!(comps2[0].is_finished);
    assert!(matches!(p.competitions_of(9), Err(ApiError::StoreUnavailable)));
}

#[test]
fn me_views() {
    let (mut p, ids, _) = setup();
    let me0 = p.me("acme", "Acme Inc", None).unwrap();
    assert!(!me0.logged_in);
    assert!(me0.me.is_none());
    let org = organizer(1);
    let me1 = p.me("acme", "Acme Inc", Some(&org)).unwrap();
    assert!(me1.logged_in);
    assert_eq!(me1.role, Some(Role::Organizer));
    assert!(me1.me.is_none());
    let viewer = player(1, &ids[1]);
    let me2 = p.me("acme", "Acme Inc", Some(&viewer)).unwrap();
    assert!(me2.logged_in);
    assert_eq!(me2.me.as_ref().unwrap().display_name, "p2");
    let ghost = player(1, "nosuch");
    let me3 = p.me("acme", "Acme Inc", Some(&ghost)).unwrap();
    assert!(!me3.logged_in);
    let _ = p.players_list(&org);
}

#[test]
fn disqualification_is_one_way_and_scoped() {
    let (mut p, ids, _) = setup();
    let org = organizer(1);
    let d = p.player_disqualified(&org, &ids[1], 50).unwrap();
    assert!(d.is_disqualified);
    let listed = p.players_list(&org).unwrap();
    let flagged: Vec<bool> = listed.iter().rev().map(|x| x.is_disqualified).collect();
    assert_eq!(flagged, vec![false, true, false]);
    assert!(matches!(p.player_disqualified(&org, "nosuch", 51), Err(ApiError::PlayerNotFound)));
}

#[test]
fn gated_competition_listings() {
    let (mut p, ids, comp) = setup();
    let org = organizer(1);
    let listed = p.organizer_competitions(&org).unwrap();
    assert_eq!(listed.len(), 1);
    assert_eq!(listed[0].id, comp);
    assert!(matches!(
        p.organizer_competitions(&player(1, &ids[0])),
        Err(ApiError::Forbidden)
    ));

    let viewer = player(1, &ids[0]);
    let seen = p.player_competitions(&viewer).unwrap();
    assert_eq!(seen.len(), 1);
    assert_eq!(seen[0].title, "spring cup");
    assert!(matches!(p.player_competitions(&org), Err(ApiError::Forbidden)));
    assert!(matches!(
        p.player_competitions(&player(1, "ghost")),
        Err(ApiError::Unauthorized)
    ));
    p.player_disqualified(&org, &ids[0], 60).unwrap();
    assert!(matches!(p.player_competitions(&viewer), Err(ApiError::Disqualified)));
}

#[test]
fn tenant_resolution_by_name() {
    let (p, _, _) = setup();
    let admin_row = p.shared.resolve_tenant_by_name("admin").unwrap();
    assert_eq!(admin_row.id, 0);
    assert_eq!(admin_row.name, "admin");
    assert_eq!(admin_row.display_name, "admin");
    let acme = p.shared.resolve_tenant_by_name("acme").unwrap();
    assert_eq!(acme.id, 1);
    assert_eq!(acme.display_name, "Acme Inc");
    assert!(p.shared.resolve_tenant_by_name("nobody").is_none());
}
