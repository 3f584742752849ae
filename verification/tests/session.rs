use anki_tex::parse_file::{get_content, FOOTER, HEADER};
use anki_tex::template::{check_target, template_document, TemplateError};
use anki_tex::watch::{after_rewatch, react, FileEvent, Notice, Reaction};

#[test]
fn only_changes_start_a_pass() {
    assert_eq!(react(FileEvent::Access), Reaction::Nothing);
    assert_eq!(react(FileEvent::Create), Reaction::Report(Notice::Created));
    assert_eq!(react(FileEvent::Modify), Reaction::Update);
    assert_eq!(react(FileEvent::Remove), Reaction::Rewatch);
    assert_eq!(react(FileEvent::Other), Reaction::Report(Notice::Unknown));
}

#[test]
fn removed_document_is_reported_after_rewatch() {
    assert_eq!(after_rewatch(true), Reaction::Update);
    assert_eq!(after_rewatch(false), Reaction::Report(Notice::Removed));
}

#[test]
fn template_is_header_comment_footer() {
    let text = template_document();
    assert_eq!(text, format!("{}\n% Add your content here\n\n{}", HEADER, FOOTER));
}

#[test]
fn template_parses_to_no_notes() {
    assert!(get_content(template_document()).unwrap().is_empty());
}

#[test]
fn template_target_is_checked() {
    assert_eq!(check_target(false, false, false, false), Ok(false));
    assert_eq!(check_target(false, false, false, true), Ok(false));
    assert_eq!(check_target(false, true, false, true), Ok(true));
    assert_eq!(check_target(false, true, false, false), Err(TemplateError::Exists));
    assert_eq!(check_target(false, false, true, false), Err(TemplateError::IsDirectory));
    assert_eq!(check_target(false, false, true, true), Err(TemplateError::IsDirectory));
    assert_eq!(check_target(true, false, false, true), Err(TemplateError::Excluded));
    assert_eq!(check_target(true, true, true, false), Err(TemplateError::Excluded));
    assert_eq!(check_target(false, true, true, false), Err(TemplateError::Exists));
}
