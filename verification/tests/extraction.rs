use pdf_lib::image::PdfImage;
use pdf_lib::images::{images_on_pages, read_image};
use pdf_lib::model::ObjectRef;
use pdf_lib::pdf::{collect_images, Pdf};

type Array = pdf_lib_rs::core::objects::PdfArray;
type Dict = pdf_lib_rs::core::objects::PdfDict;
type Name = pdf_lib_rs::core::objects::PdfName;
type Number = pdf_lib_rs::core::objects::PdfNumber;
type Object = pdf_lib_rs::core::objects::PdfObject;
type RawStream = pdf_lib_rs::core::objects::PdfRawStream;
type Reference = pdf_lib_rs::core::objects::PdfRef;

fn plain_dict(entries: Vec<(&str, Object)>) -> Dict {
    let mut d = Dict::new();
    for (key, value) in entries {
        d.set(Name::of(key), value);
    }
    d
}

fn dict(entries: Vec<(&str, Object)>) -> Object {
    Object::Dict(plain_dict(entries))
}

fn array(items: Vec<Object>) -> Object {
    let mut a = Array::new();
    for item in items {
        a.push(item);
    }
    Object::Array(a)
}

fn name(text: &str) -> Object {
    Object::Name(Name::of(text))
}

fn number(value: f64) -> Object {
    Object::Number(Number::of(value))
}

fn reference(number: u32) -> Object {
    Object::Ref(Reference::of(number, 0))
}

fn assign(pdf: &mut Pdf, number: u32, object: Object) {
    pdf.doc.context_mut().assign(&Reference::of(number, 0), object);
}

/// An image stream with the given entries besides its subtype, width and height.
fn stream(width: f64, more: Vec<(&str, Object)>, data: Vec<u8>) -> Object {
    let mut entries = vec![
        ("Subtype", name("Image")),
        ("Width", number(width)),
        ("Height", number(2.0)),
    ];
    entries.extend(more);
    Object::Stream(RawStream::of(plain_dict(entries), data))
}

/// A document with two pages, 3 and 4, whose external objects are given.
fn two_pages(first: Vec<(&str, Object)>, second: Vec<(&str, Object)>) -> Pdf {
    let mut pdf = Pdf::create();
    assign(&mut pdf, 1, dict(vec![
        ("Type", name("Pages")),
        ("Kids", array(vec![reference(3), reference(4)])),
    ]));
    for (page, xobjects) in [(3, first), (4, second)] {
        assign(&mut pdf, page, dict(vec![
            ("Type", name("Page")),
            ("Parent", reference(1)),
            ("Resources", dict(vec![("XObject", dict(xobjects))])),
        ]));
    }
    pdf
}

/// The widths of the images found, with their pages.
fn found(pdf: &Pdf) -> Vec<(u32, usize)> {
    assert!(pdf.page_tree_is_finite());
    pdf.extract_images().iter().map(|image| (image.width, image.page)).collect()
}

/// The one image of a document with the given image stream.
fn only(object: Object) -> PdfImage {
    let mut pdf = two_pages(vec![("Im", reference(10))], vec![]);
    assign(&mut pdf, 10, object);
    let mut images = pdf.extract_images();
    assert_eq!(images.len(), 1);
    images.remove(0)
}

#[test]
fn images_come_page_by_page_and_by_name() {
    let mut pdf = two_pages(
        vec![("Im2", reference(12)), ("Im1", reference(11))],
        vec![("A", reference(13))],
    );
    for width in [11u32, 12, 13] {
        assign(&mut pdf, width, stream(width as f64, vec![], vec![width as u8]));
    }
    assert_eq!(found(&pdf), vec![(11, 1), (12, 1), (13, 2)]);
    assert_eq!(pdf.extract_images()[2].data, vec![13]);
}

#[test]
fn an_image_on_two_pages_is_found_once() {
    let mut pdf = two_pages(
        vec![("Im1", reference(11)), ("Im2", reference(11))],
        vec![("Im0", reference(12)), ("Im1", reference(11))],
    );
    assign(&mut pdf, 11, stream(11.0, vec![], vec![]));
    assign(&mut pdf, 12, stream(12.0, vec![], vec![]));
    assert_eq!(found(&pdf), vec![(11, 1), (12, 2)]);
}

#[test]
fn generations_tell_images_apart() {
    let mut pdf = two_pages(
        vec![("A", reference(11)), ("B", Object::Ref(Reference::of(11, 1)))],
        vec![],
    );
    assign(&mut pdf, 11, stream(5.0, vec![], vec![]));
    pdf.doc.context_mut().assign(&Reference::of(11, 1), stream(6.0, vec![], vec![]));
    assert_eq!(found(&pdf), vec![(5, 1), (6, 1)]);
}

#[test]
fn what_is_no_image_is_passed_over() {
    let mut pdf = two_pages(
        vec![
            ("A", reference(10)),
            ("B", reference(11)),
            ("C", reference(12)),
            ("D", reference(13)),
            ("E", reference(14)),
            ("F", name("Direct")),
            ("G", reference(99)),
            ("H", reference(15)),
        ],
        vec![],
    );
    let form = plain_dict(vec![("Subtype", name("Form"))]);
    assign(&mut pdf, 10, Object::Stream(RawStream::of(form, vec![])));
    let flat = plain_dict(vec![("Subtype", name("Image")), ("Width", number(1.0))]);
    assign(&mut pdf, 11, Object::Stream(RawStream::of(flat, vec![])));
    let tall = plain_dict(vec![("Subtype", name("Image")), ("Height", number(1.0))]);
    assign(&mut pdf, 12, Object::Stream(RawStream::of(tall, vec![])));
    assign(&mut pdf, 13, dict(vec![("Subtype", name("Image"))]));
    let bare = plain_dict(vec![("Width", number(1.0)), ("Height", number(1.0))]);
    assign(&mut pdf, 14, Object::Stream(RawStream::of(bare, vec![])));
    assign(&mut pdf, 15, stream(15.0, vec![], vec![]));
    assert_eq!(found(&pdf), vec![(15, 1)]);
}

#[test]
fn values_of_an_image() {
    let image = only(stream(
        7.9,
        vec![
            ("BitsPerComponent", number(4.0)),
            ("ColorSpace", name("DeviceGray")),
            ("Filter", name("FlateDecode")),
        ],
        vec![1, 2, 3],
    ));
    assert_eq!((image.width, image.height, image.bits_per_component), (7, 2, 4));
    assert_eq!(image.color_space, "DeviceGray");
    assert_eq!(image.filter, Some("/FlateDecode".to_string()));
    assert_eq!(image.data, vec![1, 2, 3]);
    assert_eq!(image.page, 1);
    assert_eq!(image.__repr__(), "PdfImage(7x2, DeviceGray, page=1, format=raw)");
}

#[test]
fn values_that_are_missing() {
    let image = only(stream(1.0, vec![("BitsPerComponent", name("Eight"))], vec![]));
    assert_eq!(image.bits_per_component, 8);
    assert_eq!(image.color_space, "DeviceRGB");
    assert_eq!(image.filter, None);
}

#[test]
fn numbers_are_clamped() {
    let image = only(stream(-3.0, vec![("BitsPerComponent", number(300.0))], vec![]));
    assert_eq!((image.width, image.bits_per_component), (0, 255));
    let image = only(stream(1e20, vec![("BitsPerComponent", number(-1.0))], vec![]));
    assert_eq!((image.width, image.bits_per_component), (u32::MAX, 0));
    let image = only(stream(f64::NAN, vec![("BitsPerComponent", number(255.9))], vec![]));
    assert_eq!((image.width, image.bits_per_component), (0, 255));
}

#[test]
fn color_space_behind_a_reference() {
    let mut pdf = two_pages(vec![("A", reference(10)), ("B", reference(11))], vec![]);
    assign(&mut pdf, 10, stream(1.0, vec![("ColorSpace", reference(20))], vec![]));
    assign(&mut pdf, 11, stream(1.0, vec![("ColorSpace", reference(21))], vec![]));
    assign(&mut pdf, 20, name("DeviceCMYK"));
    assign(&mut pdf, 21, array(vec![name("ICCBased")]));
    let images = pdf.extract_images();
    assert_eq!(images[0].color_space, "DeviceCMYK");
    assert_eq!(images[1].color_space, "DeviceRGB");
}

#[test]
fn first_filter_of_several() {
    let image = only(stream(
        1.0,
        vec![("Filter", array(vec![name("DCTDecode"), name("FlateDecode")]))],
        vec![],
    ));
    assert_eq!(image.filter, Some("/DCTDecode".to_string()));
    assert_eq!(image.format(), "jpeg");
    let image = only(stream(1.0, vec![("Filter", array(vec![]))], vec![]));
    assert_eq!(image.filter, None);
    let image = only(stream(1.0, vec![("Filter", array(vec![number(1.0), name("A")]))], vec![]));
    assert_eq!(image.filter, None);
    let image = only(stream(1.0, vec![("Filter", reference(3))], vec![]));
    assert_eq!(image.filter, None);
}

#[test]
fn resources_behind_references() {
    let mut pdf = two_pages(vec![], vec![]);
    assign(&mut pdf, 3, dict(vec![("Type", name("Page")), ("Resources", reference(20))]));
    assign(&mut pdf, 20, dict(vec![("XObject", reference(21))]));
    assign(&mut pdf, 21, dict(vec![("Im", reference(10))]));
    assign(&mut pdf, 10, stream(10.0, vec![], vec![]));
    assert_eq!(found(&pdf), vec![(10, 1)]);
    assign(&mut pdf, 20, reference(22));
    assign(&mut pdf, 22, dict(vec![("XObject", reference(21))]));
    assert_eq!(found(&pdf), vec![]);
}

#[test]
fn resources_of_the_parent() {
    let mut pdf = two_pages(vec![], vec![]);
    assign(&mut pdf, 1, dict(vec![
        ("Type", name("Pages")),
        ("Kids", array(vec![reference(3), reference(4)])),
        ("Resources", dict(vec![("XObject", dict(vec![("Im", reference(10))]))])),
    ]));
    assign(&mut pdf, 10, stream(10.0, vec![], vec![]));
    assert_eq!(found(&pdf), vec![]);
    assign(&mut pdf, 4, dict(vec![("Type", name("Page")), ("Parent", reference(1))]));
    assert_eq!(found(&pdf), vec![(10, 2)]);
    assign(&mut pdf, 4, dict(vec![
        ("Type", name("Page")),
        ("Parent", reference(1)),
        ("Resources", Object::Null),
    ]));
    assert_eq!(found(&pdf), vec![]);
    assign(&mut pdf, 4, dict(vec![("Type", name("Page")), ("Parent", reference(77))]));
    assert_eq!(found(&pdf), vec![]);
}

/// A form with the given resources.
fn form(resources: Object) -> Object {
    let entries = plain_dict(vec![("Subtype", name("Form")), ("Resources", resources)]);
    Object::Stream(RawStream::of(entries, vec![]))
}

/// Resources that name the given external objects.
fn resources(xobjects: Vec<(&str, Object)>) -> Object {
    dict(vec![("XObject", dict(xobjects))])
}

#[test]
fn resources_of_a_node_further_up() {
    let mut pdf = two_pages(vec![], vec![]);
    assign(&mut pdf, 1, dict(vec![
        ("Type", name("Pages")),
        ("Kids", array(vec![reference(20)])),
        ("Resources", resources(vec![("Im", reference(10))])),
    ]));
    assign(&mut pdf, 20, dict(vec![
        ("Type", name("Pages")),
        ("Parent", reference(1)),
        ("Kids", array(vec![reference(21)])),
    ]));
    assign(&mut pdf, 21, dict(vec![
        ("Type", name("Pages")),
        ("Parent", reference(20)),
        ("Kids", array(vec![reference(3)])),
    ]));
    assign(&mut pdf, 3, dict(vec![("Type", name("Page")), ("Parent", reference(21))]));
    assign(&mut pdf, 10, stream(10.0, vec![], vec![]));
    assert_eq!(found(&pdf), vec![(10, 1)]);
    assign(&mut pdf, 21, dict(vec![
        ("Type", name("Pages")),
        ("Parent", reference(20)),
        ("Kids", array(vec![reference(3)])),
        ("Resources", Object::Null),
    ]));
    assert_eq!(found(&pdf), vec![]);
}

#[test]
fn parents_that_lead_round() {
    let mut pdf = two_pages(vec![], vec![]);
    assign(&mut pdf, 3, dict(vec![("Type", name("Page")), ("Parent", reference(20))]));
    assign(&mut pdf, 20, dict(vec![("Parent", reference(21))]));
    assign(&mut pdf, 21, dict(vec![("Parent", reference(20))]));
    assert_eq!(found(&pdf), vec![]);
}

#[test]
fn images_in_forms() {
    let mut pdf = two_pages(
        vec![("A", reference(10)), ("B", reference(30)), ("C", reference(12))],
        vec![("A", reference(13))],
    );
    for width in [10u32, 11, 12, 13, 14] {
        assign(&mut pdf, width, stream(width as f64, vec![], vec![]));
    }
    assign(&mut pdf, 30, form(reference(40)));
    assign(&mut pdf, 40, resources(vec![("X", reference(31)), ("Y", reference(14))]));
    assign(&mut pdf, 31, form(resources(vec![("Z", reference(11))])));
    assert_eq!(found(&pdf), vec![(10, 1), (11, 1), (14, 1), (12, 1), (13, 2)]);
}

#[test]
fn forms_that_draw_each_other() {
    let mut pdf = two_pages(vec![("F", reference(30))], vec![("G", reference(31))]);
    assign(&mut pdf, 30, form(resources(vec![("A", reference(31)), ("B", reference(30))])));
    assign(&mut pdf, 31, form(resources(vec![("A", reference(30)), ("B", reference(11))])));
    assign(&mut pdf, 11, stream(11.0, vec![], vec![]));
    assert_eq!(found(&pdf), vec![(11, 1)]);
}

#[test]
fn an_image_in_a_form_counts_for_the_first_page() {
    let mut pdf = two_pages(vec![("F", reference(30))], vec![("Im", reference(11))]);
    assign(&mut pdf, 30, form(resources(vec![("Im", reference(11))])));
    assign(&mut pdf, 11, stream(11.0, vec![], vec![]));
    assert_eq!(found(&pdf), vec![(11, 1)]);
}

#[test]
fn forms_without_resources() {
    let mut pdf = two_pages(vec![("F", reference(30)), ("G", reference(31))], vec![]);
    let bare = plain_dict(vec![("Subtype", name("Form"))]);
    assign(&mut pdf, 30, Object::Stream(RawStream::of(bare, vec![])));
    let other = plain_dict(vec![
        ("Subtype", name("PS")),
        ("Resources", resources(vec![("Im", reference(11))])),
    ]);
    assign(&mut pdf, 31, Object::Stream(RawStream::of(other, vec![])));
    assign(&mut pdf, 11, stream(11.0, vec![], vec![]));
    assert_eq!(found(&pdf), vec![]);
}

#[test]
fn images_of_chosen_pages() {
    let mut pdf = two_pages(vec![("A", reference(10))], vec![("B", reference(11))]);
    assign(&mut pdf, 10, stream(10.0, vec![], vec![]));
    assign(&mut pdf, 11, stream(11.0, vec![], vec![]));
    let page = |number: u32| ObjectRef { object_number: number, generation_number: 0 };
    let images = images_on_pages(pdf.doc.context(), &vec![page(4), page(50), page(3)]);
    let places: Vec<(u32, usize)> = images.iter().map(|image| (image.width, image.page)).collect();
    assert_eq!(places, vec![(11, 1), (10, 3)]);
    assert_eq!(collect_images(&pdf.doc).len(), 2);
    assert_eq!(read_image(pdf.doc.context(), page(10), 9).unwrap().page, 9);
    assert!(read_image(pdf.doc.context(), page(3), 1).is_none());
}

#[test]
fn extracted_pixels_become_a_png_file() {
    let image = only(stream(
        2.0,
        vec![("ColorSpace", name("DeviceGray"))],
        vec![1, 2, 3, 4],
    ));
    assert!(image.png_fits());
    assert_eq!(image.raw_bytes(), vec![1, 2, 3, 4]);
    let file = image.to_png().unwrap();
    assert!(file.starts_with(&[137, 80, 78, 71]));
}

#[test]
fn images_survive_saving() {
    let mut pdf = two_pages(vec![("Im", reference(10))], vec![]);
    let data = vec![0, 10, 13, 255];
    assign(
        &mut pdf,
        10,
        stream(2.0, vec![("Length", number(4.0))], data.clone()),
    );
    let again = Pdf { doc: pdf_lib_rs::api::PdfDocument::load(&pdf.save()).unwrap() };
    assert_eq!(found(&again), vec![(2, 1)]);
    assert_eq!(again.extract_images()[0].data, data);
}
