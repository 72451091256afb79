use aksync::aktool::{self, AKId, CategoryId, EventId, OwnerId, SlotId, TypeId};
use aksync::model::{build, AggregationError};

fn raw_category(id: u64, name: &str, event: u64) -> aktool::Category {
    aktool::Category {
        id: CategoryId(id),
        name: name.to_string(),
        color: "#487eb0".to_string(),
        description: String::new(),
        present_by_default: false,
        event: EventId(event),
    }
}

fn raw_owner(id: u64, name: &str, event: u64) -> aktool::Owner {
    aktool::Owner {
        id: OwnerId(id),
        name: name.to_string(),
        slug: name.to_string(),
        institution: String::new(),
        link: String::new(),
        event: EventId(event),
    }
}

fn raw_session(
    id: u64,
    name: &str,
    category: u64,
    owners: Vec<u64>,
    types: Vec<u64>,
    reso: bool,
    event: u64,
) -> aktool::AK {
    aktool::AK {
        id: AKId(id),
        name: name.to_string(),
        short_name: name.to_string(),
        description: String::new(),
        link: String::new(),
        protocol_link: String::new(),
        reso,
        present: None,
        notes: String::new(),
        interest: -1,
        interest_counter: 0,
        include_in_export: true,
        category: CategoryId(category),
        track: None,
        event: EventId(event),
        owners: owners.into_iter().map(OwnerId).collect(),
        types: types.into_iter().map(TypeId).collect(),
        requirements: Vec::new(),
        conflicts: Vec::new(),
        prerequisites: Vec::new(),
    }
}

fn raw_slot(id: u64, duration: u64, ak: u64, event: u64) -> aktool::Slot {
    aktool::Slot {
        id: SlotId(id),
        start: None,
        duration,
        fixed: false,
        updated: String::new(),
        ak: AKId(ak),
        room: None,
        event: EventId(event),
    }
}

#[test]
fn scenario_single_session() {
    let r = build(
        vec![raw_category(64, "Work", 16)],
        vec![raw_owner(1, "A", 16)],
        vec![raw_session(5, "Foo", 64, vec![1], vec![2], true, 16)],
        vec![],
    );
    let ev = match r.get(16) {
        Some(Ok(ev)) => ev,
        _ => panic!("event 16 should aggregate"),
    };
    let ak = ev.ak(5).expect("session 5 should be present");
    let markup = ak.markup();
    assert!(markup.contains("|Typ=Input,Output,Reso\n"));
    assert!(markup.contains("|Leitung=A\n"));
    assert!(markup.contains("|Dauer=0\n"));
    assert_eq!(ak.name(), "AK Foo");
    assert!(ak.is_koma());
}

#[test]
fn wikitext_exact() {
    let r = build(
        vec![raw_category(64, "Work", 16)],
        vec![raw_owner(1, "A", 16)],
        vec![raw_session(5, "Foo", 64, vec![], vec![2], true, 16)],
        vec![],
    );
    let ev = match r.get(16) {
        Some(Ok(ev)) => ev,
        _ => panic!("event 16 should aggregate"),
    };
    let ak = ev.ak(5).unwrap();
    assert_eq!(
        ak.wikitext(),
        "{{Seite automatisch erzeugt von aksync}}\n\
         {{KoMa Externer AK aus aktool\n\
         |Name=AK Foo\n\
         |Typ=Input,Output,Reso\n\
         |Dauer=0\n\
         }}\n"
    );
}

#[test]
fn result_link_rendered_internal() {
    // a result link into the wiki becomes an internal link
    let mut s = raw_session(5, "Foo", 64, vec![], vec![2], false, 16);
    s.protocol_link = "https://de.komapedia.org/wiki/KoMa_92/AK_Foo/Ergebnis".to_string();
    let r = build(
        vec![raw_category(64, "Work", 16)],
        vec![raw_owner(1, "A", 16)],
        vec![s],
        vec![],
    );
    let ev = match r.get(16) {
        Some(Ok(ev)) => ev,
        _ => panic!("aggregation should succeed"),
    };
    let markup = ev.ak(5).unwrap().markup();
    assert!(markup.contains(
        "|Ergebnis=[[KoMa_92/AK_Foo/Ergebnis|https://de.komapedia.org/wiki/KoMa_92/AK_Foo/Ergebnis]]\n"
    ));
}

#[test]
fn result_link_rendered_external() {
    // any other result link becomes an external link, its label escaped
    let mut s = raw_session(5, "Foo", 64, vec![], vec![2], false, 16);
    s.protocol_link = "https://example.com/pad?x=1".to_string();
    let r = build(
        vec![raw_category(64, "Work", 16)],
        vec![raw_owner(1, "A", 16)],
        vec![s],
        vec![],
    );
    let ev = match r.get(16) {
        Some(Ok(ev)) => ev,
        _ => panic!("aggregation should succeed"),
    };
    let markup = ev.ak(5).unwrap().markup();
    assert!(markup.contains(
        "|Ergebnis=[https://example.com/pad?x=1 https://example.com/pad?x{{=}}1]\n"
    ));
}

#[test]
fn unknown_category_fails_event() {
    let r = build(
        vec![raw_category(64, "Work", 16)],
        vec![raw_owner(1, "A", 16)],
        vec![raw_session(5, "Foo", 99, vec![1], vec![], false, 16)],
        vec![],
    );
    match r.get(16) {
        Some(Err(AggregationError::UnknownCategory(c))) => assert_eq!(*c, CategoryId(99)),
        _ => panic!("expected an unknown-category failure"),
    }
}

#[test]
fn unknown_owner_fails_event() {
    let r = build(
        vec![raw_category(64, "Work", 16)],
        vec![raw_owner(1, "A", 16)],
        vec![raw_session(5, "Foo", 64, vec![1, 7], vec![], false, 16)],
        vec![],
    );
    match r.get(16) {
        Some(Err(AggregationError::UnknownOwner(o))) => assert_eq!(*o, OwnerId(7)),
        _ => panic!("expected an unknown-owner failure"),
    }
}

#[test]
fn event_without_owners_is_unknown() {
    let r = build(
        vec![raw_category(64, "Work", 16)],
        vec![],
        vec![raw_session(5, "Foo", 64, vec![], vec![], false, 16)],
        vec![],
    );
    match r.get(16) {
        Some(Err(AggregationError::UnknownEvent(e))) => assert_eq!(*e, EventId(16)),
        _ => panic!("expected an unknown-event failure"),
    }
}

#[test]
fn slot_for_missing_session_fails_event() {
    let r = build(
        vec![raw_category(64, "Work", 16)],
        vec![raw_owner(1, "A", 16)],
        vec![raw_session(5, "Foo", 64, vec![], vec![], false, 16)],
        vec![raw_slot(1, 2500, 6, 16)],
    );
    match r.get(16) {
        Some(Err(AggregationError::UnknownSession(s))) => assert_eq!(*s, AKId(6)),
        _ => panic!("expected an unknown-session failure"),
    }
}

#[test]
fn first_failure_in_ascending_id_order() {
    // session 9 (unknown owner) comes first on the wire, but session 4
    // (unknown category) fails first in ascending id order
    let r = build(
        vec![raw_category(64, "Work", 16)],
        vec![raw_owner(1, "A", 16)],
        vec![
            raw_session(9, "Later", 64, vec![77], vec![], false, 16),
            raw_session(4, "Earlier", 99, vec![], vec![], false, 16),
        ],
        vec![],
    );
    match r.get(16) {
        Some(Err(AggregationError::UnknownCategory(c))) => assert_eq!(*c, CategoryId(99)),
        _ => panic!("expected the unknown-category failure of the lowest id"),
    }
}

#[test]
fn one_bad_event_leaves_others_intact() {
    let r = build(
        vec![raw_category(64, "Work", 16), raw_category(70, "Other", 17)],
        vec![raw_owner(1, "A", 16), raw_owner(2, "B", 17)],
        vec![
            raw_session(5, "Foo", 64, vec![], vec![], false, 16),
            raw_session(6, "Bar", 99, vec![], vec![], false, 17),
        ],
        vec![],
    );
    assert!(matches!(r.get(16), Some(Ok(_))));
    assert!(matches!(
        r.get(17),
        Some(Err(AggregationError::UnknownCategory(_)))
    ));
}

#[test]
fn slot_order_immaterial() {
    let sessions = || vec![raw_session(5, "Foo", 64, vec![], vec![], false, 16)];
    let r1 = build(
        vec![raw_category(64, "Work", 16)],
        vec![raw_owner(1, "A", 16)],
        sessions(),
        vec![raw_slot(1, 2500, 5, 16), raw_slot(2, 1000, 5, 16)],
    );
    let r2 = build(
        vec![raw_category(64, "Work", 16)],
        vec![raw_owner(1, "A", 16)],
        sessions(),
        vec![raw_slot(2, 1000, 5, 16), raw_slot(1, 2500, 5, 16)],
    );
    let m1 = match r1.get(16) {
        Some(Ok(ev)) => ev.ak(5).unwrap().markup(),
        _ => panic!("aggregation should succeed"),
    };
    let m2 = match r2.get(16) {
        Some(Ok(ev)) => ev.ak(5).unwrap().markup(),
        _ => panic!("aggregation should succeed"),
    };
    assert_eq!(m1, m2);
    assert!(m1.contains("|Dauer=3.5\n"));
}

#[test]
fn duplicate_session_id_last_wins() {
    let r = build(
        vec![raw_category(64, "Work", 16)],
        vec![raw_owner(1, "A", 16)],
        vec![
            raw_session(5, "First", 64, vec![], vec![], false, 16),
            raw_session(5, "Second", 64, vec![], vec![], false, 16),
        ],
        vec![],
    );
    let ev = match r.get(16) {
        Some(Ok(ev)) => ev,
        _ => panic!("aggregation should succeed"),
    };
    assert_eq!(ev.ak(5).unwrap().name(), "AK Second");
}

#[test]
fn owners_rendered_sorted_and_linked() {
    let mut o1 = raw_owner(1, "zeta", 16);
    o1.institution = "TU".to_string();
    let mut o2 = raw_owner(2, "alpha", 16);
    o2.link = "https://de.komapedia.org/wiki/Benutzer:Alpha".to_string();
    let r = build(
        vec![raw_category(64, "Work", 16)],
        vec![o1, o2],
        vec![raw_session(5, "Foo", 64, vec![1, 2], vec![], false, 16)],
        vec![],
    );
    let ev = match r.get(16) {
        Some(Ok(ev)) => ev,
        _ => panic!("aggregation should succeed"),
    };
    let markup = ev.ak(5).unwrap().markup();
    assert!(markup.contains("|Leitung=[[Benutzer:Alpha|alpha]], zeta (TU)\n"));
}
