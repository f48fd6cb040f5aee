use pdf_lib::pdf::Pdf;
use pdf_lib_rs::api::{PageSizes, PdfDocument};

type Array = pdf_lib_rs::core::objects::PdfArray;
type Dict = pdf_lib_rs::core::objects::PdfDict;
type HexString = pdf_lib_rs::core::objects::PdfHexString;
type LiteralString = pdf_lib_rs::core::objects::PdfString;
type Name = pdf_lib_rs::core::objects::PdfName;
type Number = pdf_lib_rs::core::objects::PdfNumber;
type Object = pdf_lib_rs::core::objects::PdfObject;
type Reference = pdf_lib_rs::core::objects::PdfRef;

fn dict(entries: Vec<(&str, Object)>) -> Object {
    let mut d = Dict::new();
    for (key, value) in entries {
        d.set(Name::of(key), value);
    }
    Object::Dict(d)
}

fn array(items: Vec<Object>) -> Object {
    let mut a = Array::new();
    for item in items {
        a.push(item);
    }
    Object::Array(a)
}

fn name(text: &str) -> Object {
    Object::Name(Name::of(text))
}

fn reference(number: u32) -> Object {
    Object::Ref(Reference::of(number, 0))
}

fn assign(pdf: &mut Pdf, number: u32, object: Object) {
    pdf.doc.context_mut().assign(&Reference::of(number, 0), object);
}

/// The object numbers of the pages, in order.
fn page_numbers(pdf: &Pdf) -> Vec<u32> {
    pdf.doc.get_page_refs().iter().map(|r| r.object_number).collect()
}

/// What stands in the dictionary of an object under a key.
fn entry(pdf: &Pdf, number: u32, key: &str) -> Option<Object> {
    match pdf.doc.context().lookup(&Reference::of(number, 0)) {
        Some(Object::Dict(d)) => d.get(&Name::of(key)).cloned(),
        _ => None,
    }
}

/// The text in the information dictionary under a key.
fn info(pdf: &Pdf, key: &str) -> Option<String> {
    let number = match &pdf.doc.context().trailer_info.info {
        Some(Object::Ref(r)) => r.object_number,
        _ => return None,
    };
    match entry(pdf, number, key) {
        Some(Object::HexString(text)) => Some(text.decode_text()),
        _ => None,
    }
}

/// A document with pages 4, 6 and 7, where 6 and 7 are below the inner node 5.
fn nested() -> Pdf {
    let mut pdf = Pdf::create();
    assign(&mut pdf, 1, dict(vec![
        ("Type", name("Pages")),
        ("Kids", array(vec![reference(4), reference(5)])),
    ]));
    assign(&mut pdf, 4, dict(vec![("Type", name("Page"))]));
    assign(&mut pdf, 5, dict(vec![
        ("Type", name("Pages")),
        ("Kids", array(vec![reference(6), Object::Null, reference(99), reference(7)])),
    ]));
    assign(&mut pdf, 6, dict(vec![("Type", name("Page")), ("Rotate", name("Six"))]));
    assign(&mut pdf, 7, dict(vec![("Type", name("Page")), ("Rotate", name("Seven"))]));
    pdf
}

#[test]
fn new_document() {
    let pdf = Pdf::create();
    assert!(pdf.page_tree_is_finite());
    assert_eq!(pdf.page_count(), 0);
    assert!(!pdf.is_encrypted());
    assert_eq!(pdf.object_count(), 2);
    assert_eq!(pdf.title(), None);
    assert_eq!(pdf.author(), None);
    assert_eq!(pdf.extract_images().len(), 0);
    assert_eq!(pdf.free_numbers(), u32::MAX - 2);
    assert_eq!(pdf.__repr__(), "Pdf(pages=0, encrypted=false, objects=2)");
}

#[test]
fn added_pages_come_last() {
    let mut pdf = Pdf::create();
    pdf.add_page(None);
    pdf.add_page(Some((200, 100)));
    assert_eq!(pdf.page_count(), 2);
    assert_eq!(page_numbers(&pdf), vec![3, 4]);
    assert_eq!(pdf.object_count(), 4);
    assert_eq!(pdf.__repr__(), "Pdf(pages=2, encrypted=false, objects=4)");
    assert_eq!(entry(&pdf, 1, "Count").unwrap().to_string(), "2");
    assert_eq!(entry(&pdf, 3, "Type").unwrap().to_string(), "/Page");
    assert_eq!(entry(&pdf, 3, "Parent").unwrap().to_string(), "1 0 R");
    assert_eq!(entry(&pdf, 3, "MediaBox").unwrap().to_string(), "[ 0 0 612 792 ]");
    assert_eq!(entry(&pdf, 4, "MediaBox").unwrap().to_string(), "[ 0 0 200 100 ]");
}

#[test]
fn default_size_is_letter() {
    let mut ours = Pdf::create();
    ours.add_page(None);
    ours.insert_page(0, None);
    let mut theirs = PdfDocument::create();
    theirs.add_page(PageSizes::LETTER);
    theirs.insert_page(0, PageSizes::LETTER);
    assert_eq!(ours.save(), theirs.save());
}

#[test]
fn inserted_page_stands_at_its_index() {
    let mut pdf = Pdf::create();
    pdf.add_page(None);
    pdf.add_page(None);
    pdf.insert_page(1, Some((10, 20)));
    assert_eq!(page_numbers(&pdf), vec![3, 5, 4]);
    assert_eq!(entry(&pdf, 5, "MediaBox").unwrap().to_string(), "[ 0 0 10 20 ]");
    pdf.insert_page(0, None);
    assert_eq!(page_numbers(&pdf), vec![6, 3, 5, 4]);
    pdf.insert_page(100, None);
    assert_eq!(page_numbers(&pdf), vec![6, 3, 5, 4, 7]);
}

#[test]
fn removed_page_is_gone() {
    let mut pdf = Pdf::create();
    for _ in 0..3 {
        pdf.add_page(None);
    }
    pdf.remove_page(1);
    assert_eq!(page_numbers(&pdf), vec![3, 5]);
    pdf.remove_page(2);
    assert_eq!(page_numbers(&pdf), vec![3, 5]);
    pdf.remove_page(0);
    pdf.remove_page(0);
    assert_eq!(pdf.page_count(), 0);
    pdf.remove_page(0);
    assert_eq!(pdf.page_count(), 0);
    assert_eq!(pdf.object_count(), 5);
}

#[test]
fn removing_undoes_inserting() {
    let mut pdf = nested();
    let before = page_numbers(&pdf);
    for index in 0..3 {
        pdf.insert_page(index, None);
        assert_eq!(pdf.page_count(), 4);
        pdf.remove_page(index);
        assert_eq!(page_numbers(&pdf), before);
    }
}

#[test]
fn pages_of_a_nested_tree() {
    let mut pdf = nested();
    assert!(pdf.page_tree_is_finite());
    assert_eq!(page_numbers(&pdf), vec![4, 6, 7]);
    assert_eq!(pdf.page_count(), 3);
    pdf.insert_page(1, None);
    assert_eq!(page_numbers(&pdf), vec![4, 8, 6, 7]);
    pdf.add_page(None);
    assert_eq!(page_numbers(&pdf), vec![4, 8, 6, 7, 9]);
    pdf.remove_page(2);
    assert_eq!(page_numbers(&pdf), vec![4, 8, 9]);
}

#[test]
fn a_tree_that_leads_round_is_not_finite() {
    let mut pdf = nested();
    assign(&mut pdf, 5, dict(vec![
        ("Type", name("Pages")),
        ("Kids", array(vec![reference(6), reference(1)])),
    ]));
    assert!(!pdf.page_tree_is_finite());
    assign(&mut pdf, 5, dict(vec![
        ("Type", name("Pages")),
        ("Kids", array(vec![reference(5)])),
    ]));
    assert!(!pdf.page_tree_is_finite());
    assign(&mut pdf, 5, dict(vec![
        ("Type", name("Page")),
        ("Kids", array(vec![reference(5)])),
    ]));
    assert!(pdf.page_tree_is_finite());
    assert_eq!(page_numbers(&pdf), vec![4, 5]);
}

#[test]
fn a_chain_of_all_objects_is_finite() {
    let mut pdf = Pdf::create();
    pdf.doc.context_mut().trailer_info.root = None;
    for number in 1..6 {
        assign(&mut pdf, number, dict(vec![
            ("Type", name("Pages")),
            ("Kids", array(vec![reference(number + 1)])),
        ]));
    }
    assert_eq!(pdf.object_count(), 5);
    assert!(pdf.page_tree_is_finite());
    assert_eq!(pdf.page_count(), 0);
}

#[test]
fn tree_starts_at_the_first_object_without_a_catalog() {
    let mut pdf = nested();
    pdf.doc.context_mut().trailer_info.root = None;
    assert!(pdf.page_tree_is_finite());
    assert_eq!(pdf.page_count(), 3);
    pdf.doc.context_mut().trailer_info.root = Some(reference(5));
    assert_eq!(pdf.page_count(), 3);
    assign(&mut pdf, 8, dict(vec![("Pages", reference(5))]));
    pdf.doc.context_mut().trailer_info.root = Some(reference(8));
    assert!(pdf.page_tree_is_finite());
    assert_eq!(page_numbers(&pdf), vec![6, 7]);
}

#[test]
fn page_added_without_a_tree_is_stored_only() {
    let mut pdf = Pdf::create();
    pdf.doc.context_mut().trailer_info.root = Some(reference(50));
    assign(&mut pdf, 1, Object::Null);
    pdf.add_page(None);
    pdf.insert_page(0, None);
    pdf.remove_page(0);
    assert_eq!(pdf.page_count(), 0);
    assert_eq!(pdf.object_count(), 4);
}

#[test]
fn copied_pages_come_last() {
    let src = nested();
    let mut pdf = Pdf::create();
    pdf.add_page(None);
    let indices = vec![2, 7, 0, 2];
    assert!(pdf.copies_fit(&src, &indices));
    assert_eq!(pdf.copy_pages(&src, indices), 3);
    assert_eq!(page_numbers(&pdf), vec![3, 4, 5, 6]);
    assert_eq!(entry(&pdf, 4, "Rotate").unwrap().to_string(), "/Seven");
    assert_eq!(entry(&pdf, 6, "Rotate").unwrap().to_string(), "/Seven");
    assert!(entry(&pdf, 5, "Rotate").is_none());
    assert_eq!(entry(&pdf, 4, "Parent").unwrap().to_string(), "1 0 R");
    assert_eq!(pdf.copy_pages(&src, vec![]), 0);
    assert_eq!(pdf.copy_pages(&src, vec![3, 4]), 0);
    assert_eq!(pdf.page_count(), 4);
}

#[test]
fn numbers_that_are_left() {
    let src = nested();
    let mut pdf = Pdf::create();
    pdf.doc.context_mut().largest_object_number = u32::MAX - 2;
    assert_eq!(pdf.free_numbers(), 2);
    assert!(pdf.copies_fit(&src, &vec![0, 9, 1]));
    assert!(!pdf.copies_fit(&src, &vec![0, 1, 2]));
    assert!(pdf.info_fits());
    assert!(pdf.can_be_saved());
    pdf.doc.context_mut().largest_object_number = u32::MAX;
    assert_eq!(pdf.free_numbers(), 0);
    assert!(!pdf.info_fits());
    assert!(!pdf.can_be_saved());
    pdf.doc.context_mut().trailer_info.info = Some(reference(1));
    assert!(pdf.info_fits());
}

#[test]
fn copies_when_the_root_has_a_larger_number() {
    let src = nested();
    let mut pdf = Pdf::create();
    assign(&mut pdf, 5, dict(vec![("Type", name("Pages")), ("Kids", array(vec![]))]));
    assign(&mut pdf, 2, dict(vec![("Pages", reference(5))]));
    pdf.doc.context_mut().largest_object_number = 2;
    assert!(pdf.copies_fit(&src, &vec![0, 1]));
    assert_eq!(pdf.copy_pages(&src, vec![0, 1]), 2);
    assert_eq!(page_numbers(&pdf), vec![3, 6]);
}

#[test]
fn copies_when_the_root_has_the_largest_number_of_all() {
    let src = nested();
    let mut pdf = Pdf::create();
    assign(&mut pdf, 2, dict(vec![("Pages", reference(u32::MAX))]));
    assert!(pdf.copies_fit(&src, &vec![0, 1, 2]));
    assign(&mut pdf, u32::MAX, dict(vec![("Type", name("Pages")), ("Kids", array(vec![]))]));
    pdf.doc.context_mut().largest_object_number = 2;
    assert!(pdf.copies_fit(&src, &vec![]));
    assert!(pdf.copies_fit(&src, &vec![0]));
    assert!(!pdf.copies_fit(&src, &vec![0, 1]));
    assert_eq!(pdf.copy_pages(&src, vec![0]), 1);
    assert_eq!(page_numbers(&pdf), vec![3]);
    assert_eq!(pdf.free_numbers(), 0);
}

#[test]
fn title_and_author_read_back() {
    let mut pdf = Pdf::create();
    pdf.add_page(None);
    pdf.set_title("A title");
    assert_eq!(pdf.title(), Some("A title".to_string()));
    assert_eq!(pdf.author(), None);
    pdf.set_author("J\u{f6}rg \u{1f642}");
    assert_eq!(pdf.author(), Some("J\u{f6}rg \u{1f642}".to_string()));
    assert_eq!(pdf.title(), Some("A title".to_string()));
    pdf.set_title("");
    assert_eq!(pdf.title(), Some(String::new()));
    assert_eq!(page_numbers(&pdf), vec![3]);
    assert_eq!(pdf.object_count(), 4);
}

#[test]
fn the_last_text_set_stays() {
    let mut once = Pdf::create();
    once.set_title("second");
    let mut twice = Pdf::create();
    twice.set_title("first");
    twice.set_title("second");
    assert_eq!(once.save(), twice.save());
}

#[test]
fn other_information() {
    let mut pdf = Pdf::create();
    pdf.set_subject("subject");
    pdf.set_keywords(vec!["one".to_string(), "two".to_string(), "three".to_string()]);
    pdf.set_creator("creator");
    pdf.set_producer("producer");
    assert_eq!(info(&pdf, "Subject"), Some("subject".to_string()));
    assert_eq!(info(&pdf, "Keywords"), Some("one, two, three".to_string()));
    assert_eq!(info(&pdf, "Creator"), Some("creator".to_string()));
    assert_eq!(info(&pdf, "Producer"), Some("producer".to_string()));
    assert_eq!(pdf.title(), None);
    assert_eq!(pdf.object_count(), 3);
    pdf.set_keywords(vec!["alone".to_string()]);
    assert_eq!(info(&pdf, "Keywords"), Some("alone".to_string()));
    pdf.set_keywords(vec![]);
    assert_eq!(info(&pdf, "Keywords"), Some(String::new()));
}

#[test]
fn pages_do_not_change_the_information() {
    let src = nested();
    let mut pdf = nested();
    pdf.set_title("title");
    pdf.add_page(None);
    pdf.insert_page(0, None);
    pdf.remove_page(1);
    pdf.copy_pages(&src, vec![0, 1]);
    assert_eq!(pdf.title(), Some("title".to_string()));
}

#[test]
fn information_without_a_dictionary() {
    let mut pdf = Pdf::create();
    pdf.doc.context_mut().trailer_info.info = Some(reference(40));
    assert!(pdf.title_is_readable());
    assert_eq!(pdf.title(), None);
    pdf.set_title("lost");
    assert_eq!(pdf.title(), None);
    assert_eq!(pdf.object_count(), 2);
    pdf.doc.context_mut().trailer_info.info = Some(Object::Null);
    assert_eq!(pdf.title(), None);
    pdf.set_title("kept");
    assert_eq!(pdf.title(), Some("kept".to_string()));
}

#[test]
fn title_in_each_kind_of_string() {
    let mut pdf = Pdf::create();
    pdf.doc.context_mut().trailer_info.info = Some(reference(3));
    let title = |object: Object| dict(vec![("Title", object), ("Author", name("NoText"))]);
    assign(&mut pdf, 3, title(Object::String(LiteralString::of("plain"))));
    assert!(pdf.title_is_readable());
    assert!(pdf.author_is_readable());
    assert_eq!(pdf.title(), Some("plain".to_string()));
    assert_eq!(pdf.author(), None);
    assign(&mut pdf, 3, title(Object::HexString(HexString::of("41424"))));
    assert!(pdf.title_is_readable());
    assert_eq!(pdf.title(), Some("AB@".to_string()));
    assign(&mut pdf, 3, title(Object::HexString(HexString::of("\u{e9}\u{e9}4"))));
    assert!(pdf.title_is_readable());
    assert!(pdf.title().is_some());
    assign(&mut pdf, 3, title(Object::HexString(HexString::of("4\u{e9}1"))));
    assert!(!pdf.title_is_readable());
    assert!(pdf.author_is_readable());
    assign(&mut pdf, 3, dict(vec![("Author", Object::HexString(HexString::of("4\u{e9}")))]));
    assert!(pdf.title_is_readable());
    assert!(!pdf.author_is_readable());
}

#[test]
fn saved_file_has_a_head_and_an_end() {
    let mut pdf = Pdf::create();
    pdf.add_page(None);
    assert!(pdf.can_be_saved());
    let bytes = pdf.save();
    assert!(bytes.starts_with(b"%PDF-"));
    assert!(bytes.ends_with(b"%%EOF"));
    assert_eq!(bytes, pdf.save());
}

#[test]
fn saved_file_can_be_loaded() {
    let mut pdf = Pdf::create();
    pdf.add_page(None);
    pdf.add_page(Some((300, 400)));
    pdf.insert_page(1, Some((10, 20)));
    pdf.set_title("Saved");
    pdf.set_author("Author");
    let again = Pdf { doc: PdfDocument::load(&pdf.save()).unwrap() };
    assert!(again.page_tree_is_finite());
    assert_eq!(page_numbers(&again), page_numbers(&pdf));
    assert_eq!(again.title(), pdf.title());
    assert_eq!(again.author(), pdf.author());
    assert_eq!(again.object_count(), pdf.object_count());
    assert_eq!(again.__repr__(), "Pdf(pages=3, encrypted=false, objects=6)");
    assert_eq!(again.save(), pdf.save());
}

#[test]
fn numbers_are_written_as_they_are() {
    let mut pdf = Pdf::create();
    assign(&mut pdf, 3, Object::Number(Number::of(42.5)));
    let text = String::from_utf8_lossy(&pdf.save()).to_string();
    assert!(text.contains("3 0 obj\n42.5\nendobj"));
}
