use lumencite::trash::{trash_dir, unique_trash_name};

#[test]
fn the_trash_sits_beside_the_attachments() {
    assert_eq!(trash_dir("/data/lumencite"), "/data/lumencite/.attachment-trash");
    assert_eq!(trash_dir("/data/lumencite/"), "/data/lumencite/.attachment-trash");
    assert_eq!(trash_dir(""), ".attachment-trash");
}

#[test]
fn a_taken_name_gets_the_first_free_number() {
    let taken = |names: &[&str]| names.iter().map(|s| s.to_string()).collect::<Vec<String>>();
    assert_eq!(unique_trash_name("paper.pdf", &taken(&[])), "paper.pdf");
    assert_eq!(unique_trash_name("paper.pdf", &taken(&["paper.pdf"])), "paper.pdf.1");
    assert_eq!(
        unique_trash_name("paper.pdf", &taken(&["paper.pdf.1", "paper.pdf", "other"])),
        "paper.pdf.2"
    );
    assert_eq!(unique_trash_name("paper.pdf", &taken(&["paper.pdf.1"])), "paper.pdf");
    assert_eq!(unique_trash_name("12", &taken(&["12", "12.1", "12.2"])), "12.3");
}
