use aksync::komapedia::{format_link, is_pagelink, wikipage, with_prefix, normalize_title};
use aksync::aktool::EventId;

#[test]
fn internal_link_for_wiki_url() {
    let r = format_link(
        "L".to_string(),
        &Some("https://de.komapedia.org/wiki/Foo_Bar".to_string()),
    );
    assert_eq!(r, "[[Foo_Bar|L]]");
}

#[test]
fn external_link_for_other_url() {
    let r = format_link("L".to_string(), &Some("https://example.com/x".to_string()));
    assert_eq!(r, "[https://example.com/x L]");
}

#[test]
fn bare_label_without_target() {
    let r = format_link("L".to_string(), &None);
    assert_eq!(r, "L");
}

#[test]
fn pagelink_strips_query_string() {
    assert_eq!(
        is_pagelink("https://de.komapedia.org/index.php?title=Foo&action=edit"),
        Some("Foo".to_string())
    );
}

#[test]
fn pagelink_all_domains() {
    assert_eq!(
        is_pagelink("https://komapedia.org/wiki/Seite"),
        Some("Seite".to_string())
    );
    assert_eq!(
        is_pagelink("https://www.komapedia.org/wiki/Seite"),
        Some("Seite".to_string())
    );
}

#[test]
fn pagelink_rejects_foreign_urls() {
    assert_eq!(is_pagelink("https://example.com/wiki/Foo"), None);
    assert_eq!(is_pagelink("https://de.komapedia.org/other/Foo"), None);
}

#[test]
fn wikipage_known_and_unknown_event() {
    assert_eq!(wikipage(EventId(16)), Some("KoMa_92".to_string()));
    assert_eq!(wikipage(EventId(17)), None);
}

#[test]
fn prefix_added_once() {
    assert_eq!(with_prefix("Foo".to_string()), "AK Foo");
    assert_eq!(with_prefix("AK Foo".to_string()), "AK Foo");
}

#[test]
fn titles_normalise_spaces() {
    assert_eq!(normalize_title("KoMa 92/AK IT"), "KoMa_92/AK_IT");
}

#[test]
fn tag_query_built_from_title() {
    assert_eq!(
        aksync::komapedia::semantic_query("KoMa_92/AK Foo"),
        "[[Erzeugt von aksync für::KoMa_92/AK Foo]]"
    );
}
