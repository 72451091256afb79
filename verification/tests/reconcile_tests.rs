use aksync::aktool::{self, AKId, CategoryId, EventId, RequirementId, TypeId};
use aksync::komapedia::is_subpage;
use aksync::model::{AK, Category};
use aksync::reconcile::{plan_deletions, plan_session_update, publishable};

fn raw_session(id: u64, name: &str, category: u64, types: Vec<u64>, event: u64) -> aktool::AK {
    aktool::AK {
        id: AKId(id),
        name: name.to_string(),
        short_name: name.to_string(),
        description: String::new(),
        link: String::new(),
        protocol_link: String::new(),
        reso: false,
        present: None,
        notes: String::new(),
        interest: -1,
        interest_counter: 0,
        include_in_export: true,
        category: CategoryId(category),
        track: None,
        event: EventId(event),
        owners: Vec::new(),
        types: types.into_iter().map(TypeId).collect(),
        requirements: Vec::new(),
        conflicts: Vec::new(),
        prerequisites: Vec::new(),
    }
}

fn resolved(name: &str, event: u64) -> AK {
    AK::from_aktool(
        raw_session(1, name, 64, vec![2], event),
        Category { name: "Work".to_string(), description: String::new() },
        Vec::new(),
    )
}

#[test]
fn subpage() {
    let ak = AK::from_aktool(
        aktool::AK {
            id: AKId(1305),
            name: "IT-Infrastruktur".to_string(),
            short_name: "IT-Infrastruktur".to_string(),
            description: "Test".to_string(),
            link: "https://wiki.kif.rocks/wiki/KIF530:IT-Infrastruktur".to_string(),
            protocol_link: "https://de.komapedia.org/wiki/KoMa_92/AK_IT-Infrastruktur/Ergebnis"
                .to_string(),
            reso: false,
            present: None,
            notes: String::new(),
            interest: -1,
            interest_counter: 0,
            include_in_export: true,
            category: CategoryId(65),
            track: None,
            event: EventId(16),
            owners: Vec::new(),
            types: vec![TypeId(2)],
            requirements: vec![RequirementId(49)],
            conflicts: Vec::new(),
            prerequisites: Vec::new(),
        },
        Category { name: "Inhalt/Arbeit".to_string(), description: String::new() },
        Vec::new(),
    );
    assert_eq!(
        is_subpage(
            "https://de.komapedia.org/wiki/KoMa_92/AK_IT-Infrastruktur/Ergebnis",
            EventId(16),
            &ak
        ),
        Some("Ergebnis".to_string())
    );
}

#[test]
fn stale_page_deleted_canonical_kept() {
    let canonical = "Event/AK Foo".to_string();
    let pages = vec!["Event/AK Foo/Ergebnis".to_string(), "Event/AK Foo".to_string()];
    let deletions = plan_deletions(&canonical, &pages);
    assert_eq!(deletions, vec!["Event/AK Foo/Ergebnis".to_string()]);
}

#[test]
fn underscored_title_counts_as_canonical() {
    let canonical = "Event/AK Foo".to_string();
    let pages = vec!["Event/AK_Foo".to_string()];
    let deletions = plan_deletions(&canonical, &pages);
    assert!(deletions.is_empty());
}

#[test]
fn canonical_title_stable() {
    let ak = resolved("IT-Infrastruktur", 16);
    let plan = plan_session_update(EventId(16), &ak, &Vec::new()).unwrap();
    assert_eq!(plan.title, "KoMa_92/AK IT-Infrastruktur");
    // a session whose name already carries the prefix resolves to the same
    let again = resolved("AK IT-Infrastruktur", 16);
    let plan2 = plan_session_update(EventId(16), &again, &Vec::new()).unwrap();
    assert_eq!(plan2.title, plan.title);
}

#[test]
fn unknown_event_has_no_plan() {
    let ak = resolved("Foo", 16);
    assert!(plan_session_update(EventId(99), &ak, &Vec::new()).is_none());
}

#[test]
fn second_run_is_idempotent() {
    let ak = resolved("Foo", 16);
    let first = plan_session_update(EventId(16), &ak, &Vec::new()).unwrap();
    // the wiki now holds exactly the page the first run wrote
    let tagged = vec![first.title.clone()];
    let second = plan_session_update(EventId(16), &ak, &tagged).unwrap();
    assert!(second.deletions.is_empty());
    assert_eq!(second.text, first.text);
    assert_eq!(second.title, first.title);
}

#[test]
fn publishable_keeps_koma_sessions_in_id_order() {
    let r = aksync::model::build(
        vec![aktool::Category {
            id: CategoryId(64),
            name: "Work".to_string(),
            color: String::new(),
            description: String::new(),
            present_by_default: false,
            event: EventId(16),
        }],
        vec![aktool::Owner {
            id: aksync::aktool::OwnerId(1),
            name: "A".to_string(),
            slug: "a".to_string(),
            institution: String::new(),
            link: String::new(),
            event: EventId(16),
        }],
        vec![
            raw_session(7, "Late", 64, vec![2], 16),
            raw_session(3, "Early", 64, vec![2], 16),
            raw_session(5, "Other", 64, vec![9], 16),
        ],
        vec![],
    );
    let ev = match r.get(16) {
        Some(Ok(ev)) => ev,
        _ => panic!("aggregation should succeed"),
    };
    assert_eq!(publishable(ev), vec![3, 7]);
}
