use cokacdir::skills::builtin_skills;
use cokacdir::skills::extract_skill_description;

#[test]
fn frontmatter_description_wins() {
    let content = "---\ntitle: x\ndescription:  Review the diff \n---\n# Heading\nBody text";
    assert_eq!(extract_skill_description(content), "Review the diff");
}

#[test]
fn frontmatter_without_description_uses_first_line_after() {
    let content = "---\ntitle: x\n---\n\n# Role\n";
    assert_eq!(extract_skill_description(content), "Role");
    let content2 = "---\ntitle: x\n---\n\nplain line\n";
    assert_eq!(extract_skill_description(content2), "plain line");
}

#[test]
fn plain_files_use_first_non_heading_line() {
    assert_eq!(extract_skill_description("# Title\n\nThe real text\nmore"), "The real text");
}

#[test]
fn heading_only_files_use_heading_text() {
    assert_eq!(extract_skill_description("# Only a title\n\n"), "Only a title");
}

#[test]
fn empty_files_fall_back() {
    assert_eq!(extract_skill_description(""), "Custom skill");
    assert_eq!(extract_skill_description("\n\n  \n"), "Custom skill");
}

#[test]
fn long_descriptions_are_capped() {
    let long = "y".repeat(200);
    let content = format!("---\ndescription: {}\n---\n", long);
    let d = extract_skill_description(&content);
    assert_eq!(d.chars().count(), 80);
    assert!(d.chars().all(|c| c == 'y'));
}

#[test]
fn builtin_catalog_is_complete() {
    let skills = builtin_skills();
    assert_eq!(skills.len(), 14);
    assert!(skills.iter().any(|(n, _)| n == "compact"));
    assert!(skills.iter().any(|(n, _)| n == "review"));
}
