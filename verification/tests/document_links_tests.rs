use makefile_lsp::document_links::{get_document_links, DocumentLink};
use makefile_lsp::makefile::Makefile;
use makefile_lsp::position::Position;

fn get_links(text: &str) -> Vec<DocumentLink> {
    let parsed = Makefile::parse(text);
    get_document_links(&parsed.makefile, text, "file:///home/user/project/Makefile")
}

#[test]
fn test_include_link() {
    let links = get_links("include config.mk\n");
    assert_eq!(links.len(), 1);
    assert_eq!(
        links[0].target.as_ref().unwrap().to_string(),
        "file:///home/user/project/config.mk"
    );
}

#[test]
fn test_dash_include_link() {
    let links = get_links("-include .env\n");
    assert_eq!(links.len(), 1);
}

#[test]
fn test_absolute_path_include() {
    let links = get_links("include /etc/make.conf\n");
    assert_eq!(links.len(), 1);
    assert_eq!(
        links[0].target.as_ref().unwrap().to_string(),
        "file:///etc/make.conf"
    );
}

#[test]
fn test_no_links_without_includes() {
    let links = get_links("all:\n\techo done\n");
    assert!(links.is_empty());
}

#[test]
fn test_link_tooltip() {
    let links = get_links("include config.mk\n");
    assert_eq!(links[0].tooltip.as_deref(), Some("Open config.mk"));
}

#[test]
fn test_variable_in_path_skipped() {
    let links = get_links("include $(CONF_DIR)/config.mk\n");
    assert!(links.is_empty());
}

#[test]
fn link_range_covers_path() {
    let links = get_links("include config.mk\n");
    assert_eq!(links[0].range.start, Position::new(0, 8));
    assert_eq!(links[0].range.end, Position::new(0, 17));
}

#[test]
fn invalid_document_uri_has_no_links() {
    let parsed = Makefile::parse("include config.mk\n");
    let links = get_document_links(&parsed.makefile, "include config.mk\n", "not a uri");
    assert!(links.is_empty());
}

#[test]
fn document_without_directory_resolves_against_dot() {
    let parsed = Makefile::parse("include config.mk\n");
    let links = get_document_links(&parsed.makefile, "include config.mk\n", "file:Makefile");
    assert_eq!(links[0].target.as_deref(), Some("file://./config.mk"));
}
