//! Documents as they are handed to callers.

use vstd::prelude::*;

use crate::document::{
    self, blank_page, copies_have_numbers, document, empty_document, file_fits, info_has_number,
    info_text, info_value, joined, next_ref, next_refs, numbers_distinct, pages_named, saved_file,
    texts, with_copies, with_info_text, with_last_page, with_page, without_kid,
};
use crate::image::{pdf_image_views, PdfImage};
use crate::image_laws::{holds_every_image, lemma_all_images_found};
use crate::images::{drawn, image_views, images_among, images_on_pages, ImageInfo};
use crate::info_laws::{
    info_is_lost, info_is_numbered, keeps_info, keeps_pages, lemma_copies_keep_info,
    lemma_insert_keeps_info, lemma_remove_keeps_info, lemma_setter,
};
use crate::model::{dict_at, Obj, ObjectRef};
use crate::objects::{
    dict_get, inspect, is_plain_key, lookup, object_count, splits_into_pairs, Shape,
};
use crate::page_laws::{
    is_flat, is_sound, lemma_add_page, lemma_blank_page, lemma_copy_pages, lemma_empty_document,
    lemma_insert_page, lemma_insert_page_flat, lemma_remove_page, lemma_remove_page_flat,
};
use crate::pages::{
    lemma_page_keys, page_list, page_tree_ends, pages_root, tree_ends_within, DocumentView,
};
use crate::places::places_fit;
use crate::text::{decimal, opt_text, push_decimal};
use pdf_lib_rs::api::PdfDocument;

verus! {

/// A PDF document.
///
/// It may come out of any file, a damaged one too. Where a method needs a
/// document to be in order, it says so in its `requires`, and another method
/// tests for it.
pub struct Pdf {
    pub doc: PdfDocument,
}

impl View for Pdf {
    type V = DocumentView;

    open spec fn view(&self) -> DocumentView {
        document(self.doc)
    }
}

/// The texts of a list of strings.
pub open spec fn string_texts(strings: Seq<String>) -> Seq<Seq<char>> {
    strings.map_values(|s: String| s@)
}

/// The size of a page, where none is given that of letter paper.
pub open spec fn size_or_letter(size: Option<(u32, u32)>) -> (u32, u32) {
    match size {
        Some(given) => given,
        None => (612u32, 792u32),
    }
}

/// A blank page for a document, `size` points wide and high.
pub open spec fn new_page(d: DocumentView, size: Option<(u32, u32)>) -> Obj {
    blank_page(pages_root(d), size_or_letter(size).0, size_or_letter(size).1)
}

/// The text for a truth value.
pub open spec fn bool_text(b: bool) -> Seq<char> {
    if b {
        "true"@
    } else {
        "false"@
    }
}

/// The text that describes a document.
pub open spec fn pdf_text(d: DocumentView) -> Seq<char> {
    "Pdf(pages="@ + decimal(page_list(d).len()) + ", encrypted="@ + bool_text(d.encrypted)
        + ", objects="@ + decimal(d.objects.dom().len()) + ")"@
}

/// Whether the digits of a hexadecimal string can be cut into pairs of bytes
/// without cutting a character in two.
fn can_be_paired(digits: &str) -> (yes: bool)
    ensures
        yes == splits_into_pairs(digits@),
{
    let half: usize = digits.as_bytes().len() / 2;
    let ghost bytes = vstd::utf8::encode_utf8(digits@);
    let mut i: usize = 0;
    while i <= half
        invariant
            bytes == vstd::utf8::encode_utf8(digits@),
            half == bytes.len() / 2,
            half <= usize::MAX / 2,
            i <= half + 1,
            forall|j: int|
                #![trigger vstd::utf8::is_char_boundary(bytes, j)]
                0 <= j < 2 * i && j % 2 == 0 ==> vstd::utf8::is_char_boundary(bytes, j),
        decreases half + 1 - i,
    {
        if !digits.is_char_boundary(2 * i) {
            return false;
        }
        i = i + 1;
    }
    true
}

/// Reads the images of a document, page after page. An image that is drawn more
/// than once is read once, for the page that draws it first.
pub fn collect_images(doc: &PdfDocument) -> (images: Vec<ImageInfo>)
    requires
        page_tree_ends(document(*doc)),
    ensures
        image_views(images@) == images_among(
            document(*doc).objects,
            drawn(document(*doc).objects, page_list(document(*doc))),
        ),
        ({
            let found = images_among(
                document(*doc).objects,
                drawn(document(*doc).objects, page_list(document(*doc))),
            );
            &&& images@.len() == found.len()
            &&& forall|i: int|
                #![trigger images@[i]]
                0 <= i < images@.len() ==> images@[i]@ == found[i]
        }),
{
    images_on_pages(document::context(doc), &document::get_page_refs(doc))
}

impl Pdf {
    /// A new document without pages.
    pub fn create() -> (pdf: Pdf)
        ensures
            pdf@ == empty_document(),
            is_sound(pdf@),
            is_flat(pdf@),
            page_list(pdf@).len() == 0,
            info_is_numbered(pdf@),
    {
        proof {
            lemma_empty_document();
        }
        Pdf { doc: document::create() }
    }

    /// The reference at which the page tree starts.
    fn page_tree_root(&self) -> (root: ObjectRef)
        ensures
            root == pages_root(self@),
    {
        proof {
            lemma_page_keys();
        }
        let fallback = ObjectRef { object_number: 1, generation_number: 0 };
        let ctx = document::context(&self.doc);
        match document::trailer_root(&self.doc) {
            Some(root) => match inspect(root) {
                Shape::Ref(catalog) => match lookup(ctx, catalog) {
                    Some(found) => match inspect(found) {
                        Shape::Dict(dict) => match dict_get(dict, "Pages") {
                            Some(value) => match inspect(value) {
                                Shape::Ref(pages) => pages,
                                _ => fallback,
                            },
                            None => fallback,
                        },
                        _ => fallback,
                    },
                    None => fallback,
                },
                _ => fallback,
            },
            None => fallback,
        }
    }

    /// Whether the page tree is finite, so that its pages can be listed. A damaged
    /// document may have one that leads round in a circle.
    pub fn page_tree_is_finite(&self) -> (finite: bool)
        ensures
            finite == page_tree_ends(self@),
    {
        tree_ends_within(document::context(&self.doc), self.page_tree_root(), self.object_count())
    }

    /// Whether text can be read from the entry `key` of the information
    /// dictionary. It cannot if that is a hexadecimal string whose digits do not
    /// split into pairs.
    fn info_is_readable(&self, key: &str) -> (readable: bool)
        requires
            is_plain_key(key@),
        ensures
            readable == !(info_value(self@, seq!['/'] + key@) matches Some(Obj::BrokenText)),
    {
        let ctx = document::context(&self.doc);
        let dict = match document::trailer_info(&self.doc) {
            Some(info) => match inspect(info) {
                Shape::Ref(r) => match lookup(ctx, r) {
                    Some(found) => match inspect(found) {
                        Shape::Dict(dict) => dict,
                        _ => {
                            return true;
                        },
                    },
                    None => {
                        return true;
                    },
                },
                _ => {
                    return true;
                },
            },
            None => {
                return true;
            },
        };
        match dict_get(dict, key) {
            Some(value) => match inspect(value) {
                Shape::HexString(digits) => can_be_paired(digits),
                _ => true,
            },
            None => true,
        }
    }

    /// Whether the title can be read, as far as there is one.
    pub fn title_is_readable(&self) -> (readable: bool)
        ensures
            readable == !(info_value(self@, "/Title"@) matches Some(Obj::BrokenText)),
    {
        proof {
            reveal_strlit("Title");
            reveal_strlit("/Title");
            assert(seq!['/'] + "Title"@ =~= "/Title"@);
        }
        self.info_is_readable("Title")
    }

    /// Whether the author can be read, as far as there is one.
    pub fn author_is_readable(&self) -> (readable: bool)
        ensures
            readable == !(info_value(self@, "/Author"@) matches Some(Obj::BrokenText)),
    {
        proof {
            reveal_strlit("Author");
            reveal_strlit("/Author");
            assert(seq!['/'] + "Author"@ =~= "/Author"@);
        }
        self.info_is_readable("Author")
    }

    /// How many object numbers are left for new objects.
    pub fn free_numbers(&self) -> (free: u32)
        ensures
            free == u32::MAX - self@.largest,
    {
        u32::MAX - document::largest_object_number(&self.doc)
    }

    /// Whether the document refers to an information dictionary or has a number
    /// left for a new one.
    pub fn info_fits(&self) -> (fits: bool)
        ensures
            fits == info_has_number(self@),
    {
        let present = match document::trailer_info(&self.doc) {
            Some(info) => match inspect(info) {
                Shape::Ref(_) => true,
                _ => false,
            },
            None => false,
        };
        present || self.free_numbers() > 0
    }

    /// Whether the root of the page tree is stored as a dictionary.
    fn has_page_tree(&self) -> (yes: bool)
        ensures
            yes == (dict_at(self@.objects, pages_root(self@)) is Some),
    {
        match lookup(document::context(&self.doc), self.page_tree_root()) {
            Some(found) => match inspect(found) {
                Shape::Dict(_) => true,
                _ => false,
            },
            None => false,
        }
    }

    /// Whether there are numbers left for copies of the pages of `src` at
    /// `indices`.
    pub fn copies_fit(&self, src: &Pdf, indices: &Vec<usize>) -> (fit: bool)
        requires
            page_tree_ends(src@),
        ensures
            fit == copies_have_numbers(self@, pages_named(src@, indices@)),
    {
        let pages = src.page_count();
        let mut count: usize = 0;
        let mut i: usize = 0;
        while i < indices.len()
            invariant
                pages == page_list(src@).len(),
                count <= i <= indices.len(),
                count == pages_named(src@, indices@.take(i as int)),
            decreases indices.len() - i,
        {
            assert(indices@.take(i + 1).drop_last() =~= indices@.take(i as int));
            if indices[i] < pages {
                count = count + 1;
            }
            i = i + 1;
        }
        assert(indices@.take(i as int) =~= indices@);
        let room: u64 = self.free_numbers() as u64;
        let above_root: u64 = u32::MAX as u64 - self.page_tree_root().object_number as u64;
        count == 0 || (count as u64 <= room && (!self.has_page_tree() || count as u64 - 1
            <= above_root))
    }

    /// Whether the document can be saved: whether the place of each object in the
    /// file can be written with the ten digits that there are for it, and the
    /// number of objects with 32 bits.
    pub fn can_be_saved(&self) -> (fits: bool)
        ensures
            fits == (self@.largest < u32::MAX && file_fits(self.doc)),
    {
        self.free_numbers() > 0 && places_fit(&self.doc)
    }

    /// The number of pages.
    pub fn page_count(&self) -> (count: usize)
        requires
            page_tree_ends(self@),
        ensures
            count == page_list(self@).len(),
    {
        document::get_page_count(&self.doc)
    }

    /// Whether the document is encrypted.
    pub fn is_encrypted(&self) -> (encrypted: bool)
        ensures
            encrypted == self@.encrypted,
    {
        document::is_encrypted(&self.doc)
    }

    /// The title of the document.
    pub fn title(&self) -> (title: Option<String>)
        requires
            !(info_value(self@, "/Title"@) matches Some(Obj::BrokenText)),
        ensures
            opt_text(title) == info_text(self@, "/Title"@),
    {
        document::get_title(&self.doc)
    }

    /// Sets the title of the document.
    pub fn set_title(&mut self, value: &str)
        requires
            info_has_number(old(self)@),
        ensures
            final(self)@ == with_info_text(old(self)@, "/Title"@, value@),
            !info_is_lost(old(self)@) ==> info_text(final(self)@, "/Title"@) == Some(value@),
            keeps_pages(old(self)@, final(self)@),
            info_is_numbered(old(self)@) ==> info_is_numbered(final(self)@),
    {
        proof {
            lemma_setter(self@, "/Title"@, value@);
        }
        document::set_title(&mut self.doc, value);
    }

    /// The author of the document.
    pub fn author(&self) -> (author: Option<String>)
        requires
            !(info_value(self@, "/Author"@) matches Some(Obj::BrokenText)),
        ensures
            opt_text(author) == info_text(self@, "/Author"@),
    {
        document::get_author(&self.doc)
    }

    /// Sets the author of the document.
    pub fn set_author(&mut self, value: &str)
        requires
            info_has_number(old(self)@),
        ensures
            final(self)@ == with_info_text(old(self)@, "/Author"@, value@),
            !info_is_lost(old(self)@) ==> info_text(final(self)@, "/Author"@) == Some(value@),
            keeps_pages(old(self)@, final(self)@),
            info_is_numbered(old(self)@) ==> info_is_numbered(final(self)@),
    {
        proof {
            lemma_setter(self@, "/Author"@, value@);
        }
        document::set_author(&mut self.doc, value);
    }

    /// Sets the subject of the document.
    pub fn set_subject(&mut self, subject: &str)
        requires
            info_has_number(old(self)@),
        ensures
            final(self)@ == with_info_text(old(self)@, "/Subject"@, subject@),
            !info_is_lost(old(self)@) ==> info_text(final(self)@, "/Subject"@) == Some(subject@),
            keeps_pages(old(self)@, final(self)@),
            info_is_numbered(old(self)@) ==> info_is_numbered(final(self)@),
    {
        proof {
            lemma_setter(self@, "/Subject"@, subject@);
        }
        document::set_subject(&mut self.doc, subject);
    }

    /// Sets the keywords of the document, which are stored with a comma and a
    /// space between them.
    pub fn set_keywords(&mut self, keywords: Vec<String>)
        requires
            info_has_number(old(self)@),
        ensures
            final(self)@ == with_info_text(
                old(self)@,
                "/Keywords"@,
                joined(string_texts(keywords@)),
            ),
            !info_is_lost(old(self)@) ==> info_text(final(self)@, "/Keywords"@) == Some(
                joined(string_texts(keywords@)),
            ),
            keeps_pages(old(self)@, final(self)@),
            info_is_numbered(old(self)@) ==> info_is_numbered(final(self)@),
    {
        let mut refs: Vec<&str> = Vec::new();
        let mut i: usize = 0;
        while i < keywords.len()
            invariant
                i <= keywords.len(),
                texts(refs@) == string_texts(keywords@).take(i as int),
            decreases keywords.len() - i,
        {
            let ghost earlier = refs@;
            refs.push(keywords[i].as_str());
            assert(texts(refs@) =~= texts(earlier).push(keywords@[i as int]@));
            i = i + 1;
            assert(texts(refs@) =~= string_texts(keywords@).take(i as int));
        }
        assert(string_texts(keywords@).take(i as int) =~= string_texts(keywords@));
        proof {
            lemma_setter(self@, "/Keywords"@, joined(string_texts(keywords@)));
        }
        document::set_keywords(&mut self.doc, &refs);
    }

    /// Sets the creator of the document.
    pub fn set_creator(&mut self, creator: &str)
        requires
            info_has_number(old(self)@),
        ensures
            final(self)@ == with_info_text(old(self)@, "/Creator"@, creator@),
            !info_is_lost(old(self)@) ==> info_text(final(self)@, "/Creator"@) == Some(creator@),
            keeps_pages(old(self)@, final(self)@),
            info_is_numbered(old(self)@) ==> info_is_numbered(final(self)@),
    {
        proof {
            lemma_setter(self@, "/Creator"@, creator@);
        }
        document::set_creator(&mut self.doc, creator);
    }

    /// Sets the producer of the document.
    pub fn set_producer(&mut self, producer: &str)
        requires
            info_has_number(old(self)@),
        ensures
            final(self)@ == with_info_text(old(self)@, "/Producer"@, producer@),
            !info_is_lost(old(self)@) ==> info_text(final(self)@, "/Producer"@) == Some(producer@),
            keeps_pages(old(self)@, final(self)@),
            info_is_numbered(old(self)@) ==> info_is_numbered(final(self)@),
    {
        proof {
            lemma_setter(self@, "/Producer"@, producer@);
        }
        document::set_producer(&mut self.doc, producer);
    }

    /// Adds a blank page at the end, of the given width and height in points or
    /// else of letter size.
    pub fn add_page(&mut self, size: Option<(u32, u32)>)
        requires
            old(self)@.largest < u32::MAX,
        ensures
            final(self)@ == with_last_page(
                old(self)@,
                pages_root(old(self)@),
                new_page(old(self)@, size),
            ),
            is_sound(old(self)@) ==> is_sound(final(self)@) && page_list(final(self)@)
                == page_list(old(self)@).push(next_ref(old(self)@)),
            is_sound(old(self)@) && is_flat(old(self)@) ==> is_flat(final(self)@),
            keeps_info(old(self)@, final(self)@),
            ({
                let r = ObjectRef {
                    object_number: (old(self)@.largest + 1) as u32,
                    generation_number: 0,
                };
                &&& final(self)@.objects.get(r) matches Some(Obj::Dict(page))
                &&& page.get("/Type"@) == Some(Obj::Name("/Page"@))
                &&& page.get("/Parent"@) == Some(Obj::Ref(pages_root(old(self)@)))
                &&& size matches Some((width, height)) ==> page.get("/MediaBox"@) == Some(
                    Obj::Array(
                        seq![
                            Obj::Number(0),
                            Obj::Number(0),
                            Obj::Number(width),
                            Obj::Number(height),
                        ],
                    ),
                )
                &&& size is None ==> page.get("/MediaBox"@) == Some(
                    Obj::Array(
                        seq![Obj::Number(0), Obj::Number(0), Obj::Number(612), Obj::Number(792)],
                    ),
                )
            }),
    {
        proof {
            lemma_page_entries_differ();
            lemma_insert_keeps_info(self@, pages_root(self@), new_page(self@, size), 0);
            lemma_blank_page(pages_root(self@), size_or_letter(size).0, size_or_letter(size).1);
            if is_sound(self@) {
                lemma_add_page(self@, new_page(self@, size));
            }
        }
        let (width, height) = match size {
            Some(given) => given,
            None => document::letter_size(),
        };
        document::add_page(&mut self.doc, width, height);
    }

    /// Inserts a blank page at the given index, of the given width and height in
    /// points or else of letter size.
    ///
    /// The index counts the kids of the page tree's root. These are the pages where
    /// the tree is flat; otherwise a kid may stand for several pages or for none.
    pub fn insert_page(&mut self, index: usize, size: Option<(u32, u32)>)
        requires
            old(self)@.largest < u32::MAX,
        ensures
            final(self)@ == with_page(
                old(self)@,
                pages_root(old(self)@),
                new_page(old(self)@, size),
                index as nat,
            ),
            is_sound(old(self)@) ==> is_sound(final(self)@),
            is_sound(old(self)@) && is_flat(old(self)@) ==> is_flat(final(self)@),
            keeps_info(old(self)@, final(self)@),
            is_sound(old(self)@) && is_flat(old(self)@) ==> page_list(final(self)@)
                == page_list(old(self)@).insert(
                if index < page_list(old(self)@).len() {
                    index as int
                } else {
                    page_list(old(self)@).len() as int
                },
                next_ref(old(self)@),
            ),
            ({
                let r = ObjectRef {
                    object_number: (old(self)@.largest + 1) as u32,
                    generation_number: 0,
                };
                &&& final(self)@.objects.get(r) matches Some(Obj::Dict(page))
                &&& page.get("/Type"@) == Some(Obj::Name("/Page"@))
                &&& page.get("/Parent"@) == Some(Obj::Ref(pages_root(old(self)@)))
                &&& size matches Some((width, height)) ==> page.get("/MediaBox"@) == Some(
                    Obj::Array(
                        seq![
                            Obj::Number(0),
                            Obj::Number(0),
                            Obj::Number(width),
                            Obj::Number(height),
                        ],
                    ),
                )
                &&& size is None ==> page.get("/MediaBox"@) == Some(
                    Obj::Array(
                        seq![Obj::Number(0), Obj::Number(0), Obj::Number(612), Obj::Number(792)],
                    ),
                )
            }),
    {
        proof {
            lemma_page_entries_differ();
            lemma_blank_page(pages_root(self@), size_or_letter(size).0, size_or_letter(size).1);
            lemma_insert_keeps_info(
                self@,
                pages_root(self@),
                new_page(self@, size),
                index as nat,
            );
            if is_sound(self@) {
                lemma_insert_page(self@, new_page(self@, size), index as nat);
                if is_flat(self@) {
                    lemma_insert_page_flat(self@, new_page(self@, size), index as nat);
                }
            }
        }
        let (width, height) = match size {
            Some(given) => given,
            None => document::letter_size(),
        };
        document::insert_page(&mut self.doc, index, width, height);
    }

    /// Removes the page at the given index.
    ///
    /// The index counts the kids of the page tree's root. These are the pages where
    /// the tree is flat; otherwise a kid may stand for several pages or for none, and
    /// all of these go.
    pub fn remove_page(&mut self, index: usize)
        ensures
            final(self)@ == without_kid(old(self)@, index as nat),
            is_sound(old(self)@) ==> is_sound(final(self)@),
            is_sound(old(self)@) && is_flat(old(self)@) ==> is_flat(final(self)@),
            keeps_info(old(self)@, final(self)@),
            is_sound(old(self)@) && is_flat(old(self)@) && index < page_list(old(self)@).len()
                ==> page_list(final(self)@) == page_list(old(self)@).remove(index as int),
            is_sound(old(self)@) && is_flat(old(self)@) && index >= page_list(old(self)@).len()
                ==> page_list(final(self)@) == page_list(old(self)@),
    {
        proof {
            lemma_remove_keeps_info(self@, index as nat);
            if is_sound(self@) {
                lemma_remove_page(self@, index as nat);
                if is_flat(self@) {
                    lemma_remove_page_flat(self@, index as nat);
                }
            }
        }
        document::remove_page(&mut self.doc, index);
    }

    /// Adds copies of the pages of `src` at `indices` and returns how many there
    /// were.
    pub fn copy_pages(&mut self, src: &Pdf, indices: Vec<usize>) -> (count: usize)
        requires
            page_tree_ends(src@),
            copies_have_numbers(old(self)@, pages_named(src@, indices@)),
        ensures
            count == pages_named(src@, indices@),
            final(self)@ == with_copies(old(self)@, src@, indices@),
            is_sound(old(self)@) ==> is_sound(final(self)@) && page_list(final(self)@)
                == page_list(old(self)@) + next_refs(old(self)@, count as nat),
            is_sound(old(self)@) && is_flat(old(self)@) ==> is_flat(final(self)@),
            keeps_info(old(self)@, final(self)@),
    {
        proof {
            lemma_copies_keep_info(self@, src@, indices@);
            if is_sound(self@) {
                lemma_copy_pages(self@, src@, indices@);
            }
        }
        document::copy_pages(&mut self.doc, &src.doc, &indices)
    }

    /// The document as the bytes of a PDF file.
    pub fn save(&self) -> (bytes: Vec<u8>)
        requires
            self@.largest < u32::MAX,
            file_fits(self.doc),
        ensures
            numbers_distinct(self@.objects) ==> bytes@ == saved_file(self.doc),
            bytes@.len() >= 10,
            bytes@.take(5) == seq![0x25u8, 0x50, 0x44, 0x46, 0x2d],
            bytes@.skip(bytes@.len() - 5) == seq![0x25u8, 0x25, 0x45, 0x4f, 0x46],
    {
        document::save(&self.doc)
    }

    /// The images of the document: those that its pages draw, themselves or through
    /// forms, with resources of their own or from anywhere above them.
    pub fn extract_images(&self) -> (images: Vec<PdfImage>)
        requires
            page_tree_ends(self@),
        ensures
            pdf_image_views(images@) == images_among(
                self@.objects,
                drawn(self@.objects, page_list(self@)),
            ),
            holds_every_image(self@.objects, page_list(self@), pdf_image_views(images@)),
            ({
                let found = images_among(self@.objects, drawn(self@.objects, page_list(self@)));
                &&& images@.len() == found.len()
                &&& forall|i: int|
                    #![trigger images@[i]]
                    0 <= i < images@.len() ==> {
                        &&& images@[i].width == found[i].width
                        &&& images@[i].height == found[i].height
                        &&& images@[i].bits_per_component == found[i].bits_per_component
                        &&& images@[i].color_space@ == found[i].color_space
                        &&& opt_text(images@[i].filter) == found[i].filter
                        &&& images@[i].data@ == found[i].data
                        &&& images@[i].page == found[i].page
                    }
            }),
    {
        let _count: usize = self.object_count();
        proof {
            lemma_all_images_found(self@.objects, page_list(self@));
        }
        let found = collect_images(&self.doc);
        let ghost all = image_views(found@);
        let mut images: Vec<PdfImage> = Vec::new();
        for info in infos: found
            invariant
                all == image_views(infos.seq()),
                pdf_image_views(images@) == all.take(infos.index()),
        {
            let ghost earlier = images@;
            images.push(PdfImage::from_info(info));
            assert(pdf_image_views(images@) =~= pdf_image_views(earlier).push(info@));
        }
        assert(pdf_image_views(images@) =~= all);
        assert forall|k: int| 0 <= k < images@.len() implies #[trigger] pdf_image_views(images@)[k]
            == images@[k]@ by {}
        images
    }

    /// The number of indirect objects.
    pub fn object_count(&self) -> (count: usize)
        ensures
            self@.objects.dom().finite(),
            count == self@.objects.dom().len(),
    {
        object_count(document::context(&self.doc))
    }

    /// A short description of the document.
    pub fn __repr__(&self) -> (text: String)
        requires
            page_tree_ends(self@),
        ensures
            text@ == pdf_text(self@),
            text@ == "Pdf(pages="@ + decimal(page_list(self@).len()) + ", encrypted="@ + (
            if self@.encrypted {
                "true"@
            } else {
                "false"@
            }) + ", objects="@ + decimal(self@.objects.dom().len()) + ")"@,
    {
        let mut text = "Pdf(pages=".to_owned();
        push_decimal(&mut text, self.page_count() as u64);
        text.append(", encrypted=");
        text.append(if self.is_encrypted() {
            "true"
        } else {
            "false"
        });
        text.append(", objects=");
        push_decimal(&mut text, self.object_count() as u64);
        text.append(")");
        text
    }
}

/// The entries of a new page and those of the page tree are told apart.
proof fn lemma_page_entries_differ()
    ensures
        "/Type"@ != "/Parent"@,
        "/Type"@ != "/MediaBox"@,
        "/Parent"@ != "/MediaBox"@,
        "/Type"@ != "/Kids"@,
        "/Type"@ != "/Count"@,
        "/Parent"@ != "/Kids"@,
        "/Parent"@ != "/Count"@,
        "/MediaBox"@ != "/Kids"@,
        "/MediaBox"@ != "/Count"@,
{
    reveal_strlit("/Type");
    reveal_strlit("/Parent");
    reveal_strlit("/MediaBox");
    reveal_strlit("/Kids");
    reveal_strlit("/Count");
    assert("/Type"@.len() == 5 && "/Parent"@.len() == 7 && "/MediaBox"@.len() == 9);
    assert("/Kids"@.len() == 5 && "/Count"@.len() == 6);
    assert("/Type"@[1] == 'T' && "/Kids"@[1] == 'K');
}

/// A page of a given size has it as its box, whatever the size is, and pages of
/// different sizes are different.
pub proof fn lemma_new_page_size(d: DocumentView, width: u32, height: u32)
    ensures
        new_page(d, Some((width, height))) matches Obj::Dict(page) && page.get("/MediaBox"@)
            == Some(
            Obj::Array(
                seq![Obj::Number(0), Obj::Number(0), Obj::Number(width), Obj::Number(height)],
            ),
        ),
        new_page(d, None) == new_page(d, Some((612u32, 792u32))),
{
    lemma_page_entries_differ();
}

/// The texts of a list of strings are those of the strings, one for each and in
/// their order.
pub proof fn lemma_string_texts(strings: Seq<String>)
    ensures
        string_texts(strings).len() == strings.len(),
        forall|i: int|
            #![trigger string_texts(strings)[i]]
            0 <= i < strings.len() ==> string_texts(strings)[i] == strings[i]@,
{
}

/// Keywords are joined by a comma and a space, wherever the list is cut.
pub proof fn lemma_joined(first: Seq<Seq<char>>, second: Seq<Seq<char>>)
    ensures
        first.len() == 0 ==> joined(first).len() == 0,
        first.len() == 1 ==> joined(first) == first[0],
        first.len() > 0 && second.len() > 0 ==> joined(first + second) == joined(first) + seq![
            ',',
            ' ',
        ] + joined(second),
    decreases second.len(),
{
    if first.len() > 0 && second.len() > 0 {
        let all = first + second;
        let fewer = second.drop_last();
        assert(all.drop_last() =~= first + fewer);
        assert(all.last() == second.last());
        if second.len() == 1 {
            assert(first + fewer =~= first);
            assert(joined(second) == second[0]);
        } else {
            lemma_joined(first, fewer);
            let comma = seq![',', ' '];
            assert(joined(first) + comma + joined(fewer) + comma + second.last() =~= joined(first)
                + comma + (joined(fewer) + comma + second.last()));
        }
    }
}

} // verus!
