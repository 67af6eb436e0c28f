use storyteller_opds_proxy::download::{
    entry_action, find_opf_path, fixed_content, has_audio_extension, is_manifest_item, is_stored,
    plan_strip, rebuild_steps, removable_manifest_paths, rewrite_opf, should_remove_manifest_item,
    should_remove_manifest_item_event, strip_archive, strip_media_overlay_attr, validate_epub,
    wanted_file, ArchiveEntry, EntryAction, Step, StripState,
};
use storyteller_opds_proxy::error::ProxyError;
use storyteller_opds_proxy::xml::{read_document, XmlEvent};
use storyteller_opds_proxy::zip_path::{
    extension_is, normalize_zip_path, percent_decode, resolve_decoded_href, resolve_opf_href,
};

const OPF: &str = "<package><manifest><item id=\"c1\" href=\"c1.xhtml\" media-type=\"application/xhtml+xml\" media-overlay=\"s1\"/><item id=\"s1\" href=\"s1.smil\" media-type=\"application/smil+xml\"/><item id=\"a\" href=\"../Audio/1.MP3\" media-type=\"x\"></item></manifest></package>";

fn first_tag(input: &str) -> XmlEvent {
    let mut doc = read_document(input.as_bytes());
    doc.events.remove(0)
}

fn entry(name: &str, is_dir: bool) -> ArchiveEntry {
    ArchiveEntry { name: name.to_string(), is_dir }
}

#[test]
fn the_package_document_loses_audio_and_overlays() {
    let out = rewrite_opf(OPF.as_bytes()).unwrap();
    assert_eq!(
        String::from_utf8(out).unwrap(),
        "<package><manifest><item id=\"c1\" href=\"c1.xhtml\" media-type=\"application/xhtml+xml\"/></manifest></package>"
    );
}

#[test]
fn a_removed_item_takes_what_it_encloses_with_it() {
    let input = "<m><item href=\"a.mp3\">x<item href=\"b.txt\"/><item></item>y</item><item href=\"c.txt\" media-overlay=\"o\">z</item></m>";
    assert_eq!(
        String::from_utf8(rewrite_opf(input.as_bytes()).unwrap()).unwrap(),
        "<m><item href=\"c.txt\">z</item></m>"
    );
    assert_eq!(
        String::from_utf8(rewrite_opf(b"<m/><item href=\"a.mp3\">x").unwrap()).unwrap(),
        "<m/>"
    );
}

#[test]
fn markup_without_items_is_kept() {
    let input = "<?xml version='1.0'?>\n<package><itemref media-overlay=\"x\"/><spine a='1'/></package>";
    assert_eq!(String::from_utf8(rewrite_opf(input.as_bytes()).unwrap()).unwrap(), input);
}

#[test]
fn package_rewriting_is_piecewise() {
    let one = rewrite_opf(b"<item href=\"a.ogg\"/><x/>").unwrap();
    let two = rewrite_opf(b"<item href=\"b\"/>").unwrap();
    let both = rewrite_opf(b"<item href=\"a.ogg\"/><x/><item href=\"b\"/>").unwrap();
    assert_eq!(both, [one, two].concat());
}

#[test]
fn an_item_loses_its_overlay_and_nothing_else() {
    let e = first_tag("<opf:item media-overlay='a' id='1' x:media-overlay='b' media-overlay='c' href='a&amp;b' t='\"'/>");
    assert_eq!(
        String::from_utf8(strip_media_overlay_attr(&e)).unwrap(),
        "<opf:item id=\"1\" x:media-overlay=\"b\" href=\"a&amp;b\" t='\"'/>"
    );
}

#[test]
fn an_item_without_overlay_is_not_altered() {
    for item in ["<item href=\"a&amp;b.xhtml\"/>", "<item  id='x'  href='&nbsp;' y ></item>"] {
        assert_eq!(rewrite_opf(item.as_bytes()).unwrap(), item.as_bytes().to_vec());
    }
}

#[test]
fn a_rewritten_package_document_lists_nothing_to_remove() {
    for opf in [
        OPF,
        "<m>\n<item href='a.mp3'><item href='b.mp3'/></item>\n<item href='c' media-overlay='\"' x='<item href=\"d.mp3\"/>'/> &amp; \n",
        "<item href='a.mp3'>x",
        "<item href='a&#46;mp3' media-overlay='x'/>y",
    ] {
        let out = rewrite_opf(opf.as_bytes()).unwrap();
        assert_eq!(removable_manifest_paths(&out, "OEBPS/content.opf").unwrap().len(), 0);
        assert_eq!(rewrite_opf(&out).unwrap(), out);
    }
}

#[test]
fn a_broken_package_document_is_refused() {
    assert!(matches!(rewrite_opf(b"<a></b>"), Err(ProxyError::Xml(_))));
    assert!(matches!(removable_manifest_paths(b"<a></b>", "x"), Err(ProxyError::Xml(_))));
    assert!(matches!(plan_strip(b"<a></b>", "x".to_string()), Err(ProxyError::Xml(_))));
}

#[test]
fn removed_files_are_those_of_removed_items() {
    let removed = removable_manifest_paths(OPF.as_bytes(), "OEBPS/content.opf").unwrap();
    assert!(removed.contains("OEBPS/s1.smil"));
    assert!(removed.contains("Audio/1.MP3"));
    assert!(!removed.contains("OEBPS/c1.xhtml"));
    assert_eq!(removed.len(), 2);
}

#[test]
fn the_container_names_the_package_document() {
    let container = b"<container><rootfiles><rootfile/><o:rootfile full-path=\"OEBPS/a.opf\"/><rootfile full-path=\"b\"/></rootfiles></broken>";
    assert_eq!(find_opf_path(container).unwrap(), "OEBPS/a.opf");
}

#[test]
fn a_container_without_package_document_is_refused() {
    match find_opf_path(b"<container><rootfile/></container>") {
        Err(ProxyError::Epub(message)) => {
            assert_eq!(message, "container.xml does not identify an OPF package")
        }
        _ => panic!("a path was found"),
    }
    assert!(matches!(find_opf_path(b"<a></b><rootfile full-path='x'/>"), Err(ProxyError::Xml(_))));
}

#[test]
fn only_an_epub_is_accepted() {
    assert!(validate_epub(b"application/epub+zip").is_ok());
    match validate_epub(b"application/epub+zip\n") {
        Err(ProxyError::Epub(message)) => assert_eq!(message, "zip is not an EPUB"),
        _ => panic!("accepted"),
    }
    assert!(validate_epub(b"").is_err());
}

#[test]
fn files_that_are_audio_or_overlays() {
    assert!(should_remove_manifest_item("a", "audio/mpeg"));
    assert!(should_remove_manifest_item("a", "Audio/"));
    assert!(should_remove_manifest_item("a", "application/SMIL+xml"));
    assert!(should_remove_manifest_item("a.smil", ""));
    assert!(should_remove_manifest_item("x/a.flac?b#c", "") == extension_is("c", "flac"));
    assert!(!should_remove_manifest_item("a", "audio"));
    assert!(!should_remove_manifest_item("a", "application/smil+xmlx"));
    assert!(!should_remove_manifest_item("a.xhtml", "application/xhtml+xml"));
    assert!(should_remove_manifest_item_event(&first_tag("<x href='a.mp3'/>")));
    assert!(!should_remove_manifest_item_event(&first_tag("<x/>")));
}

#[test]
fn names_of_audio_files() {
    for ext in ["mp3", "m4a", "aac", "ogg", "opus", "wav", "flac", "MP3", "Opus"] {
        assert!(has_audio_extension(&format!("dir/file.{}", ext)));
    }
    assert!(!has_audio_extension("mp3"));
    assert!(!has_audio_extension("file.mp4"));
    assert!(!has_audio_extension("file.mp3.txt"));
    assert!(!has_audio_extension(""));
}

#[test]
fn extensions() {
    assert!(extension_is("a/b.Smil", "smil"));
    assert!(extension_is(".smil", "smil"));
    assert!(extension_is("x?y.smil", "smil"));
    assert!(extension_is("x#y.smil", "smil"));
    assert!(!extension_is("a.smil/b", "smil"));
    assert!(!extension_is("a.smil?x", "smil"));
    assert!(extension_is("a.", ""));
    assert!(!extension_is("a", ""));
}

#[test]
fn manifest_items() {
    assert!(is_manifest_item(&first_tag("<item/>")));
    assert!(is_manifest_item(&first_tag("<opf:item>")));
    assert!(!is_manifest_item(&first_tag("<itemref/>")));
}

#[test]
fn normal_forms_of_paths() {
    assert_eq!(normalize_zip_path("a/b/../c"), "a/c");
    assert_eq!(normalize_zip_path("/a//./b/"), "a/b");
    assert_eq!(normalize_zip_path("../../a"), "a");
    assert_eq!(normalize_zip_path("a/.."), "");
    assert_eq!(normalize_zip_path(""), "");
    assert_eq!(normalize_zip_path("a/.../b"), "a/.../b");
}

#[test]
fn a_normal_form_is_final() {
    for path in ["a/b/../c", "/a//./b/", "../../a", "", "\u{e9}/./x"] {
        let once = normalize_zip_path(path);
        assert_eq!(normalize_zip_path(&once), once);
    }
}

#[test]
fn references_from_the_package_document() {
    assert_eq!(resolve_opf_href("OEBPS/content.opf", "Audio/1.mp3"), "OEBPS/Audio/1.mp3");
    assert_eq!(resolve_opf_href("OEBPS/content.opf", "../x.mp3#t=1"), "x.mp3");
    assert_eq!(resolve_opf_href("OEBPS/content.opf", "//x.mp3?y/z"), "x.mp3");
    assert_eq!(resolve_opf_href("content.opf", "a/./b"), "a/b");
    assert_eq!(resolve_opf_href("/content.opf", "b"), "b");
    assert_eq!(resolve_opf_href("a/b/c.opf", ""), "a/b");
}

#[test]
fn what_becomes_of_the_entries_of_an_archive() {
    let plan = plan_strip(OPF.as_bytes(), "OEBPS/content.opf".to_string()).unwrap();
    assert_eq!(plan.opf_path, "OEBPS/content.opf");
    assert_eq!(plan.package, rewrite_opf(OPF.as_bytes()).unwrap());
    assert_eq!(entry_action(&entry("mimetype", false), &plan), EntryAction::Skip);
    assert_eq!(entry_action(&entry("OEBPS/s1.smil", false), &plan), EntryAction::Skip);
    assert_eq!(entry_action(&entry("OEBPS/./s1.smil", false), &plan), EntryAction::Skip);
    assert_eq!(entry_action(&entry("Audio/1.MP3/", true), &plan), EntryAction::Skip);
    assert_eq!(entry_action(&entry("OEBPS/", true), &plan), EntryAction::Directory);
    assert_eq!(entry_action(&entry("/OEBPS/content.opf", false), &plan), EntryAction::Package);
    assert_eq!(entry_action(&entry("OEBPS/c1.xhtml", false), &plan), EntryAction::Copy);
    assert_eq!(entry_action(&entry("x/mimetype", false), &plan), EntryAction::Copy);
    assert_eq!(entry_action(&entry("OEBPS/other.mp3", false), &plan), EntryAction::Skip);
    assert_eq!(entry_action(&entry("other.SMIL", false), &plan), EntryAction::Skip);
    assert_eq!(entry_action(&entry("other.mp3/", true), &plan), EntryAction::Directory);
}

#[test]
fn a_stripped_book_opens_with_its_mimetype() {
    let plan = plan_strip(OPF.as_bytes(), "OEBPS/content.opf".to_string()).unwrap();
    let entries = vec![
        entry("OEBPS/", true),
        entry("OEBPS/s1.smil", false),
        entry("mimetype", false),
        entry("OEBPS/c1.xhtml", false),
        entry("OEBPS/content.opf", false),
        entry("Audio/1.MP3", false),
    ];
    assert_eq!(
        rebuild_steps(&entries, &plan),
        vec![Step::Mimetype, Step::Directory(0), Step::Copy(3), Step::Package(4)]
    );
    assert_eq!(rebuild_steps(&vec![], &plan), vec![Step::Mimetype]);
}

#[test]
fn a_book_is_read_file_by_file() {
    let state = StripState::Mimetype;
    assert_eq!(wanted_file(&state), Some("mimetype"));
    let state = strip_archive(state, b"application/epub+zip").unwrap();
    assert_eq!(wanted_file(&state), Some("META-INF/container.xml"));
    let state = strip_archive(state, b"<rootfile full-path='OEBPS/a.opf'/>").unwrap();
    assert_eq!(wanted_file(&state), Some("OEBPS/a.opf"));
    let state = strip_archive(state, OPF.as_bytes()).unwrap();
    assert_eq!(wanted_file(&state), None);
    match strip_archive(state, b"").unwrap() {
        StripState::Planned(plan) => {
            assert_eq!(plan.opf_path, "OEBPS/a.opf");
            assert_eq!(plan.package, rewrite_opf(OPF.as_bytes()).unwrap());
            assert!(plan.removed.contains("OEBPS/s1.smil"));
        }
        _ => panic!("not planned"),
    }
}

#[test]
fn a_book_that_cannot_be_read_is_refused() {
    assert!(matches!(
        strip_archive(StripState::Mimetype, b"text/plain"),
        Err(ProxyError::Epub(_))
    ));
    assert!(matches!(strip_archive(StripState::Container, b"<a/>"), Err(ProxyError::Epub(_))));
    assert!(matches!(strip_archive(StripState::Container, b"<a></b>"), Err(ProxyError::Xml(_))));
    assert!(matches!(
        strip_archive(StripState::Package("x".to_string()), b"<a></b>"),
        Err(ProxyError::Xml(_))
    ));
}

#[test]
fn the_entries_of_a_book() {
    let plan = plan_strip(OPF.as_bytes(), "OEBPS/content.opf".to_string()).unwrap();
    assert!(is_stored(Step::Mimetype));
    assert!(!is_stored(Step::Copy(0)));
    assert!(!is_stored(Step::Package(0)));
    assert!(!is_stored(Step::Directory(0)));
    assert_eq!(fixed_content(Step::Mimetype, &plan), Some(&b"application/epub+zip"[..]));
    assert_eq!(fixed_content(Step::Package(3), &plan), Some(plan.package.as_slice()));
    assert_eq!(fixed_content(Step::Copy(3), &plan), None);
    assert_eq!(fixed_content(Step::Directory(3), &plan), None);
}

#[test]
fn a_removed_item_leaves_no_trace() {
    let with = rewrite_opf(b"<m><item href=\"a\"/><item href=\"b.wav\">x</item><item href=\"c\"/></m>");
    let without = rewrite_opf(b"<m><item href=\"a\"/><item href=\"c\"/></m>");
    assert_eq!(with.unwrap(), without.unwrap());
}

#[test]
fn removed_files_are_named_in_normal_form() {
    let opf = b"<item href=\"./x/../a.mp3?b\" media-type=\"audio/mpeg\"/><item href=\"/b.mp3\"/>";
    let removed = removable_manifest_paths(opf, "d//e.opf").unwrap();
    assert!(removed.contains("d/a.mp3"));
    assert!(removed.contains("b.mp3"));
    assert_eq!(removed.len(), 2);
}

#[test]
fn a_normal_form_has_plain_components() {
    for path in ["//a/../b/./c//..", "a/b", "..", "./x"] {
        let normal = normalize_zip_path(path);
        assert!(
            normal.is_empty()
                || normal.split('/').all(|part| !part.is_empty() && part != "." && part != "..")
        );
    }
    assert_eq!(normalize_zip_path("a/b/c.d"), "a/b/c.d");
}

#[test]
fn a_book_holds_no_audio_that_the_manifest_does_not_list() {
    let plan = plan_strip(b"<package/>", "c.opf".to_string()).unwrap();
    let entries = vec![
        entry("x.mp3", false),
        entry("c.opf", false),
        entry("y/z.smil", false),
        entry("a.xhtml", false),
    ];
    assert_eq!(
        rebuild_steps(&entries, &plan),
        vec![Step::Mimetype, Step::Package(1), Step::Copy(3)]
    );
}

#[test]
fn files_are_found_under_percent_encoded_names() {
    assert_eq!(resolve_opf_href("c.opf", "a%20b.mp3"), "a%20b.mp3");
    assert_eq!(resolve_decoded_href("c.opf", "a%20b.mp3"), "a b.mp3");
    assert_eq!(resolve_decoded_href("d/c.opf", "%C3%A9%2f..%2Fx%3F?y#z"), "d/x?");
    let opf = b"<item href=\"a%20b\" media-type=\"audio/mpeg\"/>";
    let plan = plan_strip(opf, "OEBPS/c.opf".to_string()).unwrap();
    assert!(plan.removed.contains("OEBPS/a b"));
    assert!(plan.removed.contains("OEBPS/a%20b"));
    assert_eq!(plan.removed.len(), 2);
    assert_eq!(entry_action(&entry("OEBPS/a b", false), &plan), EntryAction::Skip);
}

#[test]
fn percent_signs_are_decoded_with_two_digits_behind_them() {
    assert_eq!(percent_decode(b"%41%6a%4G%%20%2"), b"Aj%4G% %2".to_vec());
    assert_eq!(percent_decode(b"%fF"), vec![0xff]);
    assert_eq!(percent_decode(b""), Vec::<u8>::new());
}

#[test]
fn a_package_document_with_nothing_to_remove_comes_out_byte_for_byte() {
    let opf = "<?xml version='1.0'?><package ><item href='a&amp;b' /><!-- x --></package>\n";
    assert_eq!(rewrite_opf(opf.as_bytes()).unwrap(), opf.as_bytes().to_vec());
}
