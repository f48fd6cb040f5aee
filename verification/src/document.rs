//! Documents, read and changed through `pdf_lib_rs::api::PdfDocument`.

use vstd::prelude::*;

use crate::model::{dict_at, Dictionary, Obj, ObjectRef, Objects};
use crate::objects::{context_objects, opt_value, Context, Object};
use crate::pages::{kids_in, page_list, page_tree_ends, pages_root, DocumentView};
use crate::text::{decimal, opt_text};
use pdf_lib_rs::api::{PageSizes, PdfDocument};

verus! {

#[verifier::external_type_specification]
#[verifier::external_body]
pub struct ExPdfDocument(PdfDocument);

/// The indirect objects that a document holds.
pub uninterp spec fn document_objects(doc: PdfDocument) -> Objects;

/// The largest object number that a document has given out.
pub uninterp spec fn document_largest(doc: PdfDocument) -> u32;

/// The trailer's entry for the catalog.
pub uninterp spec fn document_root(doc: PdfDocument) -> Option<Obj>;

/// The trailer's entry for the information dictionary.
pub uninterp spec fn document_info(doc: PdfDocument) -> Option<Obj>;

/// Whether a document is marked as encrypted.
pub uninterp spec fn document_encrypted(doc: PdfDocument) -> bool;

/// What a document holds.
pub open spec fn document(doc: PdfDocument) -> DocumentView {
    DocumentView {
        objects: document_objects(doc),
        largest: document_largest(doc),
        root: document_root(doc),
        info: document_info(doc),
        encrypted: document_encrypted(doc),
    }
}

/// A document with an object stored under `r`.
pub open spec fn with_object(d: DocumentView, r: ObjectRef, value: Obj) -> DocumentView {
    DocumentView {
        objects: d.objects.insert(r, value),
        largest: if r.object_number > d.largest {
            r.object_number
        } else {
            d.largest
        },
        ..d
    }
}

/// The number that a document gives to its next object.
pub open spec fn next_ref(d: DocumentView) -> ObjectRef {
    ObjectRef { object_number: (d.largest + 1) as u32, generation_number: 0 }
}

/// A page dictionary without contents, `width` points wide and `height` high.
pub open spec fn blank_page(parent: ObjectRef, width: u32, height: u32) -> Obj {
    Obj::Dict(
        Map::empty()
            .insert("/Type"@, Obj::Name("/Page"@))
            .insert("/Parent"@, Obj::Ref(parent))
            .insert(
                "/MediaBox"@,
                Obj::Array(
                    seq![
                        Obj::Number(0),
                        Obj::Number(0),
                        Obj::Number(width),
                        Obj::Number(height),
                    ],
                ),
            ),
    )
}

/// A length as a number object.
pub open spec fn count_value(n: nat) -> Obj {
    Obj::Number(
        if n > u32::MAX {
            u32::MAX
        } else {
            n as u32
        },
    )
}

/// A document in which the dictionary `entries`, stored under `node`, has other
/// kids.
pub open spec fn with_kids(
    d: DocumentView,
    node: ObjectRef,
    entries: Dictionary,
    kids: Seq<Obj>,
) -> DocumentView {
    with_object(
        d,
        node,
        Obj::Dict(
            entries.insert("/Kids"@, Obj::Array(kids)).insert("/Count"@, count_value(kids.len())),
        ),
    )
}

/// A document with `page` as a new object, and as a new kid of `root` at `index`
/// or, if there are fewer kids, behind the last. If `root` is no dictionary, the
/// page is stored and stays outside the tree.
pub open spec fn with_page(
    d: DocumentView,
    root: ObjectRef,
    page: Obj,
    index: nat,
) -> DocumentView {
    let r = next_ref(d);
    let stored = with_object(d, r, page);
    match dict_at(stored.objects, root) {
        Some(entries) => {
            let kids = kids_in(entries);
            let at = if index < kids.len() {
                index as int
            } else {
                kids.len() as int
            };
            with_kids(stored, root, entries, kids.insert(at, Obj::Ref(r)))
        },
        None => stored,
    }
}

/// A document with `page` as a new object, and as the last kid of `root`.
pub open spec fn with_last_page(d: DocumentView, root: ObjectRef, page: Obj) -> DocumentView {
    let stored = with_object(d, next_ref(d), page);
    match dict_at(stored.objects, root) {
        Some(entries) => with_page(d, root, page, kids_in(entries).len()),
        None => stored,
    }
}

/// A document without the kid of its page tree's root at `index`.
pub open spec fn without_kid(d: DocumentView, index: nat) -> DocumentView {
    match dict_at(d.objects, pages_root(d)) {
        Some(entries) => if index < kids_in(entries).len() {
            with_kids(d, pages_root(d), entries, kids_in(entries).remove(index as int))
        } else {
            d
        },
        None => d,
    }
}

/// A copy of a page, as a kid of `parent`.
pub open spec fn page_copy(page: Obj, parent: ObjectRef) -> Obj {
    match page {
        Obj::Dict(entries) => Obj::Dict(entries.insert("/Parent"@, Obj::Ref(parent))),
        _ => page,
    }
}

/// How many of `indices` are indices of pages of `src`.
pub open spec fn pages_named(src: DocumentView, indices: Seq<usize>) -> nat
    decreases indices.len(),
{
    if indices.len() == 0 {
        0
    } else {
        pages_named(src, indices.drop_last()) + if indices.last() < page_list(src).len() {
            1nat
        } else {
            0nat
        }
    }
}

/// A document with copies of the pages of `src` at `indices` behind its last
/// kid, one after the other; an index without a page is passed over.
pub open spec fn with_copies(d: DocumentView, src: DocumentView, indices: Seq<usize>) -> DocumentView
    decreases indices.len(),
{
    if indices.len() == 0 {
        d
    } else {
        let before = with_copies(d, src, indices.drop_last());
        let index = indices.last();
        if index < page_list(src).len() {
            with_last_page(
                before,
                pages_root(d),
                page_copy(src.objects[page_list(src)[index as int]], pages_root(d)),
            )
        } else {
            before
        }
    }
}

/// Whether a document has numbers left for `count` copies of pages. Each copy
/// takes the number behind the largest one, and with each the root of the page
/// tree is stored anew, so that from the second copy on the largest number is not
/// below that of the root.
pub open spec fn copies_have_numbers(d: DocumentView, count: nat) -> bool {
    count > 0 ==> {
        &&& d.largest + count <= u32::MAX
        &&& dict_at(d.objects, pages_root(d)) is Some ==> pages_root(d).object_number + count - 1
            <= u32::MAX
    }
}

/// The numbers that a document gives to its next `count` objects, where no other
/// number is given out in between.
pub open spec fn next_refs(d: DocumentView, count: nat) -> Seq<ObjectRef> {
    Seq::new(
        count,
        |i: int| ObjectRef { object_number: (d.largest + 1 + i) as u32, generation_number: 0 },
    )
}

/// What the information dictionary of a document holds under `key`.
pub open spec fn info_value(d: DocumentView, key: Seq<char>) -> Option<Obj> {
    match d.info {
        Some(Obj::Ref(r)) => match dict_at(d.objects, r) {
            Some(entries) => entries.get(key),
            None => None,
        },
        _ => None,
    }
}

/// The text in the information dictionary of a document under `key`.
pub open spec fn info_text(d: DocumentView, key: Seq<char>) -> Option<Seq<char>> {
    match info_value(d, key) {
        Some(Obj::Text(text)) => Some(text),
        _ => None,
    }
}

/// Whether a new information dictionary can be given a number, or none is
/// needed.
pub open spec fn info_has_number(d: DocumentView) -> bool {
    d.info matches Some(Obj::Ref(_)) || d.largest < u32::MAX
}

/// A document whose trailer refers to an information dictionary: the one that
/// it had, or else a new one.
pub open spec fn with_info_dict(d: DocumentView) -> DocumentView {
    match d.info {
        Some(Obj::Ref(_)) => d,
        _ => DocumentView {
            info: Some(Obj::Ref(next_ref(d))),
            ..with_object(d, next_ref(d), Obj::Dict(Map::empty()))
        },
    }
}

/// A document with a text in its information dictionary under `key`. If the
/// trailer refers to something else than a dictionary, nothing changes.
pub open spec fn with_info_text(d: DocumentView, key: Seq<char>, text: Seq<char>) -> DocumentView {
    let ready = with_info_dict(d);
    match ready.info {
        Some(Obj::Ref(r)) => match dict_at(ready.objects, r) {
            Some(entries) => with_object(
                ready,
                r,
                Obj::Dict(entries.insert(key, Obj::Text(text))),
            ),
            None => ready,
        },
        _ => ready,
    }
}

/// Keywords joined by commas.
pub open spec fn joined(keywords: Seq<Seq<char>>) -> Seq<char>
    decreases keywords.len(),
{
    if keywords.len() == 0 {
        seq![]
    } else if keywords.len() == 1 {
        keywords[0]
    } else {
        joined(keywords.drop_last()) + seq![',', ' '] + keywords.last()
    }
}

/// A document with a catalog and a page tree without pages.
pub open spec fn empty_document() -> DocumentView {
    let pages = ObjectRef { object_number: 1, generation_number: 0 };
    let catalog = ObjectRef { object_number: 2, generation_number: 0 };
    DocumentView {
        objects: Map::empty()
            .insert(
                pages,
                Obj::Dict(
                    Map::empty()
                        .insert("/Type"@, Obj::Name("/Pages"@))
                        .insert("/Kids"@, Obj::Array(seq![]))
                        .insert("/Count"@, Obj::Number(0)),
                ),
            )
            .insert(
                catalog,
                Obj::Dict(
                    Map::empty()
                        .insert("/Type"@, Obj::Name("/Catalog"@))
                        .insert("/Pages"@, Obj::Ref(pages)),
                ),
            ),
        largest: 2,
        root: Some(Obj::Ref(catalog)),
        info: None,
        encrypted: false,
    }
}

/// Calls `PdfDocument::create`, which makes a catalog and an empty page tree.
#[verifier::external_body]
pub(crate) fn create() -> (doc: PdfDocument)
    ensures
        document(doc) == empty_document(),
{
    PdfDocument::create()
}

/// Calls `PdfDocument::context`, which gives access to the document's objects.
#[verifier::external_body]
pub(crate) fn context(doc: &PdfDocument) -> (ctx: &Context)
    ensures
        context_objects(*ctx) == document_objects(*doc),
{
    doc.context()
}

/// Reads the field `trailer_info.root` of the document's context.
#[verifier::external_body]
pub(crate) fn trailer_root(doc: &PdfDocument) -> (root: Option<&Object>)
    ensures
        opt_value(root) == document_root(*doc),
{
    doc.context().trailer_info.root.as_ref()
}

/// Reads the field `trailer_info.info` of the document's context.
#[verifier::external_body]
pub(crate) fn trailer_info(doc: &PdfDocument) -> (info: Option<&Object>)
    ensures
        opt_value(info) == document_info(*doc),
{
    doc.context().trailer_info.info.as_ref()
}

/// Reads the field `largest_object_number` of the document's context.
#[verifier::external_body]
pub(crate) fn largest_object_number(doc: &PdfDocument) -> (largest: u32)
    ensures
        largest == document_largest(*doc),
{
    doc.context().largest_object_number
}

/// Calls `PdfDocument::is_encrypted`, which reads the mark that was set when the
/// document was made.
#[verifier::external_body]
pub(crate) fn is_encrypted(doc: &PdfDocument) -> (encrypted: bool)
    ensures
        encrypted == document_encrypted(*doc),
{
    doc.is_encrypted()
}

/// Calls `PdfDocument::get_page_refs`, which walks the page tree from its root
/// and lists the pages. On a tree that leads round in a circle it would walk on
/// without end.
#[verifier::external_body]
pub(crate) fn get_page_refs(doc: &PdfDocument) -> (refs: Vec<ObjectRef>)
    requires
        page_tree_ends(document(*doc)),
    ensures
        refs@ == page_list(document(*doc)),
{
    doc.get_page_refs().into_iter().map(
        |r| ObjectRef { object_number: r.object_number, generation_number: r.generation_number },
    ).collect()
}

/// Calls `PdfDocument::get_page_count`, which counts what `get_page_refs` lists.
#[verifier::external_body]
pub(crate) fn get_page_count(doc: &PdfDocument) -> (count: usize)
    requires
        page_tree_ends(document(*doc)),
    ensures
        count == page_list(document(*doc)).len(),
{
    doc.get_page_count()
}

/// Calls `PdfDocument::get_title`, which decodes the `Title` entry of the
/// information dictionary. It would panic on a hexadecimal string whose digits
/// do not split into pairs.
#[verifier::external_body]
pub(crate) fn get_title(doc: &PdfDocument) -> (title: Option<String>)
    requires
        !(info_value(document(*doc), "/Title"@) matches Some(Obj::BrokenText)),
    ensures
        opt_text(title) == info_text(document(*doc), "/Title"@),
{
    doc.get_title()
}

/// Calls `PdfDocument::get_author`, which does with the `Author` entry what
/// `get_title` does with `Title`.
#[verifier::external_body]
pub(crate) fn get_author(doc: &PdfDocument) -> (author: Option<String>)
    requires
        !(info_value(document(*doc), "/Author"@) matches Some(Obj::BrokenText)),
    ensures
        opt_text(author) == info_text(document(*doc), "/Author"@),
{
    doc.get_author()
}

/// Calls `PdfDocument::set_title`, which stores the text under `Title` in the
/// information dictionary, as UTF-16 that decodes to the same text. A new
/// dictionary takes the next object number.
#[verifier::external_body]
pub(crate) fn set_title(doc: &mut PdfDocument, title: &str)
    requires
        info_has_number(document(*old(doc))),
    ensures
        document(*final(doc)) == with_info_text(document(*old(doc)), "/Title"@, title@),
{
    doc.set_title(title)
}

/// Calls `PdfDocument::set_author`, which does with `Author` what `set_title`
/// does with `Title`.
#[verifier::external_body]
pub(crate) fn set_author(doc: &mut PdfDocument, author: &str)
    requires
        info_has_number(document(*old(doc))),
    ensures
        document(*final(doc)) == with_info_text(document(*old(doc)), "/Author"@, author@),
{
    doc.set_author(author)
}

/// Calls `PdfDocument::set_subject`, which does with `Subject` what `set_title`
/// does with `Title`.
#[verifier::external_body]
pub(crate) fn set_subject(doc: &mut PdfDocument, subject: &str)
    requires
        info_has_number(document(*old(doc))),
    ensures
        document(*final(doc)) == with_info_text(document(*old(doc)), "/Subject"@, subject@),
{
    doc.set_subject(subject)
}

/// The texts of a list of strings.
pub open spec fn texts(strings: Seq<&str>) -> Seq<Seq<char>> {
    strings.map_values(|s: &str| s@)
}

/// Calls `PdfDocument::set_keywords`, which stores the keywords, joined by a
/// comma and a space, under `Keywords` as `set_title` does a title.
#[verifier::external_body]
pub(crate) fn set_keywords(doc: &mut PdfDocument, keywords: &Vec<&str>)
    requires
        info_has_number(document(*old(doc))),
    ensures
        document(*final(doc)) == with_info_text(
            document(*old(doc)),
            "/Keywords"@,
            joined(texts(keywords@)),
        ),
{
    doc.set_keywords(keywords)
}

/// Calls `PdfDocument::set_creator`, which does with `Creator` what `set_title`
/// does with `Title`.
#[verifier::external_body]
pub(crate) fn set_creator(doc: &mut PdfDocument, creator: &str)
    requires
        info_has_number(document(*old(doc))),
    ensures
        document(*final(doc)) == with_info_text(document(*old(doc)), "/Creator"@, creator@),
{
    doc.set_creator(creator)
}

/// Calls `PdfDocument::set_producer`, which does with `Producer` what `set_title`
/// does with `Title`.
#[verifier::external_body]
pub(crate) fn set_producer(doc: &mut PdfDocument, producer: &str)
    requires
        info_has_number(document(*old(doc))),
    ensures
        document(*final(doc)) == with_info_text(document(*old(doc)), "/Producer"@, producer@),
{
    doc.set_producer(producer)
}

/// Reads the constant `PageSizes::LETTER`, which holds 612 and 792 points.
#[verifier::external_body]
pub(crate) fn letter_size() -> (size: (u32, u32))
    ensures
        size == (612u32, 792u32),
{
    (PageSizes::LETTER[0] as u32, PageSizes::LETTER[1] as u32)
}

/// Calls `PdfDocument::add_page`, which stores a blank page under the next object
/// number and appends it to the kids of the page tree's root.
#[verifier::external_body]
pub(crate) fn add_page(doc: &mut PdfDocument, width: u32, height: u32)
    requires
        document(*old(doc)).largest < u32::MAX,
    ensures
        document(*final(doc)) == with_last_page(
            document(*old(doc)),
            pages_root(document(*old(doc))),
            blank_page(pages_root(document(*old(doc))), width, height),
        ),
{
    doc.add_page([width.into(), height.into()]);
}

/// Calls `PdfDocument::insert_page`, which stores a blank page under the next
/// object number and inserts it into the kids of the page tree's root.
#[verifier::external_body]
pub(crate) fn insert_page(doc: &mut PdfDocument, index: usize, width: u32, height: u32)
    requires
        document(*old(doc)).largest < u32::MAX,
    ensures
        document(*final(doc)) == with_page(
            document(*old(doc)),
            pages_root(document(*old(doc))),
            blank_page(pages_root(document(*old(doc))), width, height),
            index as nat,
        ),
{
    doc.insert_page(index, [width.into(), height.into()]);
}

/// Calls `PdfDocument::remove_page`, which takes a kid out of the page tree's
/// root.
#[verifier::external_body]
pub(crate) fn remove_page(doc: &mut PdfDocument, index: usize)
    ensures
        document(*final(doc)) == without_kid(document(*old(doc)), index as nat),
{
    doc.remove_page(index)
}

/// Calls `PdfDocument::copy_pages`, which stores a copy of each page named under
/// the next object number and appends it to the kids of the page tree's root, and
/// counts the references that it gives back, one for each copy.
#[verifier::external_body]
pub(crate) fn copy_pages(doc: &mut PdfDocument, src: &PdfDocument, indices: &Vec<usize>) -> (count:
    usize)
    requires
        page_tree_ends(document(*src)),
        copies_have_numbers(document(*old(doc)), pages_named(document(*src), indices@)),
    ensures
        count == pages_named(document(*src), indices@),
        document(*final(doc)) == with_copies(document(*old(doc)), document(*src), indices@),
{
    doc.copy_pages(src, indices).len()
}

/// The number of bytes that each object of a document takes in a file, without
/// what is written around it.
pub uninterp spec fn written_sizes(doc: PdfDocument) -> Map<ObjectRef, nat>;

/// The number of bytes that the header of a document takes in a file.
pub uninterp spec fn header_size(doc: PdfDocument) -> nat;

/// The file that a document is saved as.
pub uninterp spec fn saved_file(doc: PdfDocument) -> Seq<u8>;

/// The number of bytes that an object of the given size takes in a file together
/// with its number and the words `obj` and `endobj`.
pub open spec fn extent(r: ObjectRef, size: nat) -> nat {
    decimal(r.object_number as nat).len() + decimal(r.generation_number as nat).len() + size + 15
}

/// The number of bytes that objects of the given sizes take together.
pub open spec fn total_extent(sizes: Map<ObjectRef, nat>) -> nat
    decreases sizes.dom().len(),
    when sizes.dom().finite()
{
    if sizes.dom().len() == 0 {
        0
    } else {
        let r = sizes.dom().choose();
        extent(r, sizes[r]) + total_extent(sizes.remove(r))
    }
}

/// Whether no object has a larger number than `r`.
pub open spec fn is_last(sizes: Map<ObjectRef, nat>, r: ObjectRef) -> bool {
    sizes.contains_key(r) && forall|other: ObjectRef| #[trigger]
        sizes.contains_key(other) ==> other.object_number <= r.object_number
}

/// Whether the place of each object in the file of a document can be written with
/// ten digits. The largest place is that of the object that comes last, behind the
/// header with two line ends and all other objects.
pub open spec fn file_fits(doc: PdfDocument) -> bool {
    let sizes = written_sizes(doc);
    forall|r: ObjectRef| #[trigger]
        is_last(sizes, r) ==> header_size(doc) + 2 + total_extent(sizes.remove(r)) < 10_000_000_000
}

/// Whether no two objects share an object number.
pub open spec fn numbers_distinct(objects: Objects) -> bool {
    forall|a: ObjectRef, b: ObjectRef|
        #![trigger objects.contains_key(a), objects.contains_key(b)]
        objects.contains_key(a) && objects.contains_key(b) && a.object_number == b.object_number
            ==> a == b
}

/// Whether `entries` lists each object of `sizes` once, with its size.
pub open spec fn lists_sizes(
    sizes: Map<ObjectRef, nat>,
    entries: Seq<(ObjectRef, usize)>,
) -> bool {
    &&& forall|i: int, j: int|
        #![trigger entries[i], entries[j]]
        0 <= i < j < entries.len() ==> entries[i].0 != entries[j].0
    &&& forall|i: int|
        #![trigger entries[i]]
        0 <= i < entries.len() ==> sizes.contains_key(entries[i].0) && sizes[entries[i].0]
            == entries[i].1
    &&& forall|r: ObjectRef| #[trigger]
        sizes.contains_key(r) ==> exists|i: int|
            0 <= i < entries.len() && (#[trigger] entries[i]).0 == r
}

/// Calls `PdfObjectTrait::size_in_bytes` on each object that
/// `PdfContext::enumerate_indirect_objects` lists, which is each object once.
#[verifier::external_body]
pub(crate) fn object_sizes(doc: &PdfDocument) -> (entries: Vec<(ObjectRef, usize)>)
    ensures
        lists_sizes(written_sizes(*doc), entries@),
{
    doc.context().enumerate_indirect_objects().into_iter().map(
        |e| (
            ObjectRef { object_number: e.0.object_number, generation_number: e.0.generation_number },
            pdf_lib_rs::core::objects::PdfObjectTrait::size_in_bytes(e.1),
        ),
    ).collect()
}

/// Calls `PdfHeader::size_in_bytes` on the header of the document's context.
#[verifier::external_body]
pub(crate) fn size_of_header(doc: &PdfDocument) -> (size: usize)
    ensures
        size == header_size(*doc),
{
    pdf_lib_rs::core::objects::PdfObjectTrait::size_in_bytes(&doc.context().header)
}

/// Calls `PdfDocument::save`, which writes a header, the objects by ascending
/// number, a table of their places and a trailer.
///
/// The file is a function of the document where no two objects share a number.
/// Objects that do come in the order of a hash table, so of such a document's
/// file only the first and the last bytes are stated. The table has ten digits
/// for each place, and a longer one would not fit into the file's buffer.
#[verifier::external_body]
pub(crate) fn save(doc: &PdfDocument) -> (bytes: Vec<u8>)
    requires
        document(*doc).largest < u32::MAX,
        file_fits(*doc),
    ensures
        numbers_distinct(document_objects(*doc)) ==> bytes@ == saved_file(*doc),
        bytes@.len() >= 10,
        bytes@.take(5) == seq![0x25u8, 0x50, 0x44, 0x46, 0x2d],
        bytes@.skip(bytes@.len() - 5) == seq![0x25u8, 0x25, 0x45, 0x4f, 0x46],
{
    doc.save()
}

} // verus!
