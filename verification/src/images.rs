//! Finding the images that the pages of a document draw.

use vstd::prelude::*;

use crate::graph::{
    filter_name, get_filter_name, get_page_resources, page_resources, resolve_dict, resolved_dict,
};
use crate::model::{
    dict_at, in_name_order, lemma_listing_unique, Dictionary, Obj, ObjectRef, Objects,
};
use crate::objects::{
    context_objects, dict_entries, dict_get, dict_list, entry_values, inspect, is_plain_key,
    lookup, object_count, opt_entries, Context, Dict, Shape,
};
use crate::text::{opt_text, same_text, strip_slashes, without_slashes};

verus! {

/// An image as it is stored in a document, with the page that first draws it.
#[derive(Debug)]
pub struct ImageInfo {
    pub width: u32,
    pub height: u32,
    pub bits_per_component: u8,
    pub color_space: String,
    pub filter: Option<String>,
    pub data: Vec<u8>,
    pub page: usize,
}

/// What an image holds.
pub struct ImageView {
    pub width: u32,
    pub height: u32,
    pub bits_per_component: u8,
    pub color_space: Seq<char>,
    pub filter: Option<Seq<char>>,
    pub data: Seq<u8>,
    pub page: nat,
}

impl View for ImageInfo {
    type V = ImageView;

    open spec fn view(&self) -> ImageView {
        ImageView {
            width: self.width,
            height: self.height,
            bits_per_component: self.bits_per_component,
            color_space: self.color_space@,
            filter: opt_text(self.filter),
            data: self.data@,
            page: self.page as nat,
        }
    }
}

/// What a list of images holds.
pub open spec fn image_views(images: Seq<ImageInfo>) -> Seq<ImageView> {
    images.map_values(|image: ImageInfo| image@)
}

/// A number clamped to the range of `u8`.
pub open spec fn clamped_u8(n: u32) -> u8 {
    if n > 255 {
        255
    } else {
        n as u8
    }
}

/// The colour space that an image with the dictionary `dict` names, without the
/// slash; `DeviceRGB` if it names none.
pub open spec fn color_space_name(objects: Objects, dict: Dictionary) -> Seq<char> {
    match dict.get("/ColorSpace"@) {
        Some(Obj::Name(name)) => without_slashes(name),
        Some(Obj::Ref(r)) => match objects.get(r) {
            Some(Obj::Name(name)) => without_slashes(name),
            _ => "DeviceRGB"@,
        },
        _ => "DeviceRGB"@,
    }
}

/// The image stored under `r`, drawn on the page with the number `page`: there
/// is one if `r` leads to a stream of the subtype `Image` whose width and height
/// are numbers.
pub open spec fn image_at(objects: Objects, r: ObjectRef, page: nat) -> Option<ImageView> {
    match objects.get(r) {
        Some(Obj::Stream(dict, data)) => match (
            dict.get("/Subtype"@),
            dict.get("/Width"@),
            dict.get("/Height"@),
        ) {
            (
                Some(Obj::Name(subtype)),
                Some(Obj::Number(width)),
                Some(Obj::Number(height)),
            ) => if subtype == "/Image"@ {
                Some(
                    ImageView {
                        width,
                        height,
                        bits_per_component: match dict.get("/BitsPerComponent"@) {
                            Some(Obj::Number(bits)) => clamped_u8(bits),
                            _ => 8,
                        },
                        color_space: color_space_name(objects, dict),
                        filter: filter_name(dict),
                        data,
                        page,
                    },
                )
            } else {
                None
            },
            _ => None,
        },
        _ => None,
    }
}

/// The references among the values of a list of entries, in order.
pub open spec fn refs_among(entries: Seq<(Seq<char>, Obj)>) -> Seq<ObjectRef>
    decreases entries.len(),
{
    if entries.len() == 0 {
        seq![]
    } else {
        let before = refs_among(entries.drop_last());
        match entries.last().1 {
            Obj::Ref(r) => before.push(r),
            _ => before,
        }
    }
}

/// The external objects that resources name.
pub open spec fn resource_xobjects(objects: Objects, resources: Dictionary) -> Option<Dictionary> {
    match resources.get("/XObject"@) {
        Some(value) => resolved_dict(objects, value),
        None => None,
    }
}

/// The external objects that the resources of a page name.
pub open spec fn page_xobjects(objects: Objects, page: ObjectRef) -> Option<Dictionary> {
    match dict_at(objects, page) {
        Some(page_dict) => match page_resources(objects, page_dict) {
            Some(resources) => resource_xobjects(objects, resources),
            None => None,
        },
        None => None,
    }
}

/// The external objects that the resources of a form name. A form is a stream of
/// the subtype `Form`.
pub open spec fn form_xobjects(objects: Objects, form: ObjectRef) -> Option<Dictionary> {
    match objects.get(form) {
        Some(Obj::Stream(dict, _)) => if dict.get("/Subtype"@) == Some(Obj::Name("/Form"@)) {
            match dict.get("/Resources"@) {
                Some(value) => match resolved_dict(objects, value) {
                    Some(resources) => resource_xobjects(objects, resources),
                    None => None,
                },
                None => None,
            }
        } else {
            None
        },
        _ => None,
    }
}

/// The references to external objects, in the order of their names.
pub open spec fn xobject_refs(xobjects: Option<Dictionary>) -> Seq<ObjectRef> {
    match xobjects {
        Some(entries) => refs_among(in_name_order(entries)),
        None => seq![],
    }
}

/// The external objects that a page refers to itself.
pub open spec fn page_refs(objects: Objects, page: ObjectRef) -> Seq<ObjectRef> {
    xobject_refs(page_xobjects(objects, page))
}

/// The external objects that a form refers to itself.
pub open spec fn form_refs(objects: Objects, form: ObjectRef) -> Seq<ObjectRef> {
    xobject_refs(form_xobjects(objects, form))
}

/// Whether `r` is among the references of `uses`.
pub open spec fn uses_ref(uses: Seq<(ObjectRef, nat)>, r: ObjectRef) -> bool {
    exists|i: int| 0 <= i < uses.len() && (#[trigger] uses[i]).0 == r
}

/// The objects that are not among the references of `uses`.
pub open spec fn unused(objects: Objects, uses: Seq<(ObjectRef, nat)>) -> Set<ObjectRef> {
    objects.dom().filter(|r: ObjectRef| !uses_ref(uses, r))
}

/// The external objects in `uses`, and then those that the page with the number
/// `page` still adds when it has `todo` to draw. What is in use already is passed
/// over. Anything else is added, and if it is a form, what it refers to is drawn
/// next.
pub open spec fn with_drawn(
    objects: Objects,
    uses: Seq<(ObjectRef, nat)>,
    todo: Seq<ObjectRef>,
    page: nat,
) -> Seq<(ObjectRef, nat)>
    decreases unused(objects, uses).len(), todo.len(),
    when objects.dom().finite()
    via with_drawn_ends
{
    if todo.len() == 0 {
        uses
    } else if uses_ref(uses, todo[0]) {
        with_drawn(objects, uses, todo.drop_first(), page)
    } else {
        with_drawn(
            objects,
            uses.push((todo[0], page)),
            form_refs(objects, todo[0]) + todo.drop_first(),
            page,
        )
    }
}

#[via_fn]
proof fn with_drawn_ends(
    objects: Objects,
    uses: Seq<(ObjectRef, nat)>,
    todo: Seq<ObjectRef>,
    page: nat,
) {
    if todo.len() > 0 && !uses_ref(uses, todo[0]) {
        lemma_unused_push(objects, uses, todo[0], page);
    }
}

/// One more use leaves one object fewer unused, or is of no object and draws
/// nothing else.
pub(crate) proof fn lemma_unused_push(objects: Objects, uses: Seq<(ObjectRef, nat)>, r: ObjectRef, page: nat)
    requires
        objects.dom().finite(),
        !uses_ref(uses, r),
    ensures
        unused(objects, uses.push((r, page))).len() <= unused(objects, uses).len(),
        unused(objects, uses.push((r, page))).len() < unused(objects, uses).len() || form_refs(
            objects,
            r,
        ).len() == 0,
{
    let more = uses.push((r, page));
    lemma_uses_push(uses, r, page);
    assert(unused(objects, more) =~= unused(objects, uses).remove(r));
    objects.dom().lemma_len_filter(|a: ObjectRef| !uses_ref(uses, a));
    if !objects.contains_key(r) {
        assert(unused(objects, more) =~= unused(objects, uses));
    }
}

/// The external objects that the pages draw, page after page, themselves or
/// through forms: each once, with the number of the first page that draws it.
/// Pages are numbered from one.
pub open spec fn drawn(objects: Objects, pages: Seq<ObjectRef>) -> Seq<(ObjectRef, nat)>
    decreases pages.len(),
{
    if pages.len() == 0 {
        seq![]
    } else {
        with_drawn(
            objects,
            drawn(objects, pages.drop_last()),
            page_refs(objects, pages.last()),
            pages.len(),
        )
    }
}

/// The images among `uses`.
pub open spec fn images_among(objects: Objects, uses: Seq<(ObjectRef, nat)>) -> Seq<ImageView>
    decreases uses.len(),
{
    if uses.len() == 0 {
        seq![]
    } else {
        let (r, page) = uses.last();
        let images = images_among(objects, uses.drop_last());
        match image_at(objects, r, page) {
            Some(image) => images.push(image),
            None => images,
        }
    }
}

/// The keys of an image dictionary are plain, and what they are behind a slash.
proof fn lemma_image_keys()
    ensures
        is_plain_key("XObject"@),
        seq!['/'] + "XObject"@ == "/XObject"@,
        is_plain_key("Resources"@),
        seq!['/'] + "Resources"@ == "/Resources"@,
        is_plain_key("Subtype"@),
        seq!['/'] + "Subtype"@ == "/Subtype"@,
        is_plain_key("Width"@),
        seq!['/'] + "Width"@ == "/Width"@,
        is_plain_key("Height"@),
        seq!['/'] + "Height"@ == "/Height"@,
        is_plain_key("BitsPerComponent"@),
        seq!['/'] + "BitsPerComponent"@ == "/BitsPerComponent"@,
        is_plain_key("ColorSpace"@),
        seq!['/'] + "ColorSpace"@ == "/ColorSpace"@,
{
    reveal_strlit("XObject");
    reveal_strlit("/XObject");
    reveal_strlit("Resources");
    reveal_strlit("/Resources");
    reveal_strlit("Subtype");
    reveal_strlit("/Subtype");
    reveal_strlit("Width");
    reveal_strlit("/Width");
    reveal_strlit("Height");
    reveal_strlit("/Height");
    reveal_strlit("BitsPerComponent");
    reveal_strlit("/BitsPerComponent");
    reveal_strlit("ColorSpace");
    reveal_strlit("/ColorSpace");
    assert(seq!['/'] + "XObject"@ =~= "/XObject"@);
    assert(seq!['/'] + "Resources"@ =~= "/Resources"@);
    assert(seq!['/'] + "Subtype"@ =~= "/Subtype"@);
    assert(seq!['/'] + "Width"@ =~= "/Width"@);
    assert(seq!['/'] + "Height"@ =~= "/Height"@);
    assert(seq!['/'] + "BitsPerComponent"@ =~= "/BitsPerComponent"@);
    assert(seq!['/'] + "ColorSpace"@ =~= "/ColorSpace"@);
}

/// The number under a key of a dictionary, if there is one.
fn number_entry(dict: &Dict, key: &str) -> (number: Option<u32>)
    requires
        is_plain_key(key@),
    ensures
        number == match dict_entries(*dict).get(seq!['/'] + key@) {
            Some(Obj::Number(n)) => Some(n),
            _ => None::<u32>,
        },
{
    match dict_get(dict, key) {
        Some(value) => match inspect(value) {
            Shape::Number(n) => Some(n),
            _ => None,
        },
        None => None,
    }
}

/// The name of the colour space of an image with the dictionary `dict`.
fn color_space(ctx: &Context, dict: &Dict) -> (name: String)
    ensures
        name@ == color_space_name(context_objects(*ctx), dict_entries(*dict)),
{
    proof {
        lemma_image_keys();
    }
    match dict_get(dict, "ColorSpace") {
        Some(value) => match inspect(value) {
            Shape::Name(name) => strip_slashes(name),
            Shape::Ref(r) => match lookup(ctx, r) {
                Some(found) => match inspect(found) {
                    Shape::Name(name) => strip_slashes(name),
                    _ => "DeviceRGB".to_owned(),
                },
                None => "DeviceRGB".to_owned(),
            },
            _ => "DeviceRGB".to_owned(),
        },
        None => "DeviceRGB".to_owned(),
    }
}

/// Whether a stream with the dictionary `dict` has the given subtype.
fn has_subtype(dict: &Dict, subtype: &str) -> (yes: bool)
    ensures
        yes == (dict_entries(*dict).get("/Subtype"@) == Some(Obj::Name(subtype@))),
{
    proof {
        lemma_image_keys();
    }
    match dict_get(dict, "Subtype") {
        Some(value) => match inspect(value) {
            Shape::Name(name) => same_text(name, subtype),
            _ => false,
        },
        None => false,
    }
}

/// Reads the image stored under `r`, if there is one.
pub fn read_image(ctx: &Context, r: ObjectRef, page: usize) -> (image: Option<ImageInfo>)
    ensures
        match image {
            Some(found) => image_at(context_objects(*ctx), r, page as nat) == Some(found@),
            None => image_at(context_objects(*ctx), r, page as nat) is None,
        },
        match context_objects(*ctx).get(r) {
            Some(Obj::Stream(dict, data)) => {
                &&& image is Some <==> dict.get("/Subtype"@) == Some(Obj::Name("/Image"@)) && (
                dict.get("/Width"@) matches Some(Obj::Number(_))) && (dict.get(
                    "/Height"@,
                ) matches Some(Obj::Number(_)))
                &&& image matches Some(found) ==> {
                    &&& dict.get("/Width"@) == Some(Obj::Number(found.width))
                    &&& dict.get("/Height"@) == Some(Obj::Number(found.height))
                    &&& found.data@ == data
                    &&& found.page == page
                    &&& opt_text(found.filter) == filter_name(dict)
                    &&& match dict.get("/BitsPerComponent"@) {
                        Some(Obj::Number(bits)) => found.bits_per_component == if bits < 255 {
                            bits as int
                        } else {
                            255
                        },
                        _ => found.bits_per_component == 8,
                    }
                    &&& match dict.get("/ColorSpace"@) {
                        Some(Obj::Name(name)) => found.color_space@ == without_slashes(name),
                        Some(Obj::Ref(space)) => match context_objects(*ctx).get(space) {
                            Some(Obj::Name(name)) => found.color_space@ == without_slashes(name),
                            _ => found.color_space@ == "DeviceRGB"@,
                        },
                        _ => found.color_space@ == "DeviceRGB"@,
                    }
                }
            },
            _ => image is None,
        },
{
    let stream = match lookup(ctx, r) {
        Some(found) => match inspect(found) {
            Shape::Stream(s) => s,
            _ => {
                return None;
            },
        },
        None => {
            return None;
        },
    };
    if !has_subtype(stream.dict, "/Image") {
        return None;
    }
    proof {
        lemma_image_keys();
    }
    let width: u32 = match number_entry(stream.dict, "Width") {
        Some(n) => n,
        None => {
            return None;
        },
    };
    let height: u32 = match number_entry(stream.dict, "Height") {
        Some(n) => n,
        None => {
            return None;
        },
    };
    let bits_per_component: u8 = match number_entry(stream.dict, "BitsPerComponent") {
        Some(n) => if n > 255 {
            255
        } else {
            n as u8
        },
        None => 8,
    };
    let filter = get_filter_name(&stream);
    let image = ImageInfo {
        width,
        height,
        bits_per_component,
        color_space: color_space(ctx, stream.dict),
        filter,
        data: stream.contents.clone(),
        page,
    };
    assert(image@.data =~= stream.contents@);
    Some(image)
}

/// The dictionary of the external objects that resources name.
fn resource_xobject_dict<'a>(ctx: &'a Context, resources: &'a Dict) -> (dict: Option<&'a Dict>)
    ensures
        opt_entries(dict) == resource_xobjects(context_objects(*ctx), dict_entries(*resources)),
{
    proof {
        lemma_image_keys();
    }
    match dict_get(resources, "XObject") {
        Some(value) => resolve_dict(ctx, value),
        None => None,
    }
}

/// The dictionary of the external objects that the resources of a page name.
fn page_xobject_dict<'a>(ctx: &'a Context, page: ObjectRef) -> (dict: Option<&'a Dict>)
    ensures
        opt_entries(dict) == page_xobjects(context_objects(*ctx), page),
{
    match lookup(ctx, page) {
        Some(found) => match inspect(found) {
            Shape::Dict(page_dict) => match get_page_resources(ctx, page_dict) {
                Some(resources) => resource_xobject_dict(ctx, resources),
                None => None,
            },
            _ => None,
        },
        None => None,
    }
}

/// The dictionary of the external objects that the resources of a form name.
fn form_xobject_dict<'a>(ctx: &'a Context, form: ObjectRef) -> (dict: Option<&'a Dict>)
    ensures
        opt_entries(dict) == form_xobjects(context_objects(*ctx), form),
{
    proof {
        lemma_image_keys();
    }
    let stream = match lookup(ctx, form) {
        Some(found) => match inspect(found) {
            Shape::Stream(s) => s,
            _ => {
                return None;
            },
        },
        None => {
            return None;
        },
    };
    if !has_subtype(stream.dict, "/Form") {
        return None;
    }
    match dict_get(stream.dict, "Resources") {
        Some(value) => match resolve_dict(ctx, value) {
            Some(resources) => resource_xobject_dict(ctx, resources),
            None => None,
        },
        None => None,
    }
}

/// The references among the values of a dictionary, in the order of the names.
fn refs_in_dict(dict: &Dict) -> (refs: Vec<ObjectRef>)
    ensures
        refs@ == refs_among(in_name_order(dict_entries(*dict))),
{
    let entries = dict_list(dict);
    let ghost values = entry_values(entries@);
    let mut refs: Vec<ObjectRef> = Vec::new();
    let mut i: usize = 0;
    while i < entries.len()
        invariant
            i <= entries.len(),
            values == entry_values(entries@),
            refs@ == refs_among(values.take(i as int)),
        decreases entries.len() - i,
    {
        assert(values.take(i + 1).drop_last() =~= values.take(i as int));
        assert(values.take(i + 1).last() == values[i as int]);
        match inspect(entries[i].1) {
            Shape::Ref(r) => {
                refs.push(r);
            },
            _ => {},
        }
        i = i + 1;
    }
    assert(values.take(i as int) =~= values);
    proof {
        lemma_listing_unique(dict_entries(*dict), values, in_name_order(dict_entries(*dict)));
    }
    refs
}

/// The references to external objects, in the order of their names.
fn refs_in(dict: Option<&Dict>) -> (refs: Vec<ObjectRef>)
    ensures
        refs@ == xobject_refs(opt_entries(dict)),
{
    match dict {
        Some(entries) => refs_in_dict(entries),
        None => Vec::new(),
    }
}

/// Puts references on a stack so that the first of them comes off first.
fn push_all(stack: &mut Vec<ObjectRef>, refs: &Vec<ObjectRef>)
    ensures
        final(stack)@.reverse() == refs@ + old(stack)@.reverse(),
{
    let mut i: usize = refs.len();
    assert(refs@.skip(i as int) + stack@.reverse() =~= stack@.reverse());
    while i > 0
        invariant
            i <= refs.len(),
            stack@.reverse() == refs@.skip(i as int) + old(stack)@.reverse(),
        decreases i,
    {
        i = i - 1;
        let ghost before = stack@;
        stack.push(refs[i]);
        assert(stack@.reverse() =~= seq![refs@[i as int]] + before.reverse());
        assert(refs@.skip(i as int) =~= seq![refs@[i as int]] + refs@.skip(i + 1));
        assert(stack@.reverse() =~= refs@.skip(i as int) + old(stack)@.reverse());
    }
    assert(refs@.skip(0) =~= refs@);
}

/// A number that stands for a reference.
spec fn ref_key(r: ObjectRef) -> int {
    r.object_number * 0x1_0000 + r.generation_number
}

/// Whether `seen` holds the numbers of the references in use.
spec fn are_seen(seen: Set<u64>, uses: Seq<(ObjectRef, nat)>) -> bool {
    forall|r: ObjectRef| seen.contains(#[trigger] ref_key(r) as u64) <==> uses_ref(uses, r)
}

/// Reads the images that the given pages draw, in order, themselves or through
/// forms. An image that is drawn more than once is read once, for the page that
/// draws it first.
pub fn images_on_pages(ctx: &Context, pages: &Vec<ObjectRef>) -> (images: Vec<ImageInfo>)
    ensures
        image_views(images@) == images_among(
            context_objects(*ctx),
            drawn(context_objects(*ctx), pages@),
        ),
        ({
            let found = images_among(
                context_objects(*ctx),
                drawn(context_objects(*ctx), pages@),
            );
            &&& images@.len() == found.len()
            &&& forall|i: int|
                #![trigger images@[i]]
                0 <= i < images@.len() ==> {
                    &&& images@[i].width == found[i].width
                    &&& images@[i].height == found[i].height
                    &&& images@[i].bits_per_component == found[i].bits_per_component
                    &&& images@[i].color_space@ == found[i].color_space
                    &&& opt_text(images@[i].filter) == found[i].filter
                    &&& images@[i].data@ == found[i].data
                    &&& images@[i].page == found[i].page
                }
        }),
{
    broadcast use vstd::std_specs::hash::group_hash_axioms;

    let ghost objects = context_objects(*ctx);
    let _count: usize = object_count(ctx);
    assert(objects.dom().finite());
    let mut images: Vec<ImageInfo> = Vec::new();
    let mut seen: std::collections::HashSet<u64> = std::collections::HashSet::new();
    let ghost mut uses: Seq<(ObjectRef, nat)> = seq![];
    let mut i: usize = 0;
    assert(image_views(images@) =~= seq![]);
    while i < pages.len()
        invariant
            objects == context_objects(*ctx),
            objects.dom().finite(),
            i <= pages.len(),
            uses == drawn(objects, pages@.take(i as int)),
            image_views(images@) == images_among(objects, uses),
            are_seen(seen@, uses),
        decreases pages.len() - i,
    {
        let page: usize = i + 1;
        let refs = refs_in(page_xobject_dict(ctx, pages[i]));
        let mut stack: Vec<ObjectRef> = Vec::new();
        push_all(&mut stack, &refs);
        let ghost goal = drawn(objects, pages@.take(i + 1));
        assert(pages@.take(i + 1).drop_last() =~= pages@.take(i as int));
        assert(stack@.reverse() =~= refs@);
        while stack.len() > 0
            invariant
                objects == context_objects(*ctx),
                objects.dom().finite(),
                goal == with_drawn(objects, uses, stack@.reverse(), page as nat),
                image_views(images@) == images_among(objects, uses),
                are_seen(seen@, uses),
            decreases unused(objects, uses).len(), stack.len(),
        {
            let ghost todo = stack@.reverse();
            let r = stack.pop().unwrap();
            assert(todo[0] == r);
            assert(stack@.reverse() =~= todo.drop_first());
            let key: u64 = r.object_number as u64 * 0x1_0000 + r.generation_number as u64;
            assert(key == ref_key(r) as u64);
            if seen.insert(key) {
                let ghost more = uses.push((r, page as nat));
                proof {
                    lemma_uses_push(uses, r, page as nat);
                    lemma_unused_push(objects, uses, r, page as nat);
                }
                match read_image(ctx, r, page) {
                    Some(image) => {
                        let ghost earlier = images@;
                        images.push(image);
                        assert(image_views(images@) =~= image_views(earlier).push(image@));
                    },
                    None => {},
                }
                let inner = refs_in(form_xobject_dict(ctx, r));
                push_all(&mut stack, &inner);
                assert(more.drop_last() =~= uses);
                assert forall|other: ObjectRef|
                    seen@.contains(#[trigger] ref_key(other) as u64) <==> uses_ref(more, other) by {
                    assert(ref_key(other) as u64 == key ==> other == r);
                }
                proof {
                    uses = more;
                }
            }
        }
        assert(stack@.reverse() =~= seq![]);
        i = i + 1;
    }
    assert(pages@.take(i as int) =~= pages@);
    assert forall|k: int| 0 <= k < images@.len() implies #[trigger] image_views(images@)[k]
        == images@[k]@ by {}
    images
}

/// One more use adds its reference to those in use, and no other.
pub(crate) proof fn lemma_uses_push(uses: Seq<(ObjectRef, nat)>, r: ObjectRef, page: nat)
    ensures
        forall|other: ObjectRef| #[trigger]
            uses_ref(uses.push((r, page)), other) <==> other == r || uses_ref(uses, other),
{
    let longer = uses.push((r, page));
    assert forall|other: ObjectRef| other == r || uses_ref(uses, other) implies #[trigger] uses_ref(
        longer,
        other,
    ) by {
        if other == r {
            assert(longer[uses.len() as int].0 == r);
        } else {
            let i = choose|i: int| 0 <= i < uses.len() && (#[trigger] uses[i]).0 == other;
            assert(longer[i] == uses[i]);
        }
    }
    assert forall|other: ObjectRef| #[trigger] uses_ref(longer, other) implies other == r
        || uses_ref(uses, other) by {
        let i = choose|i: int| 0 <= i < longer.len() && (#[trigger] longer[i]).0 == other;
        if i < uses.len() {
            assert(uses[i] == longer[i]);
        }
    }
}

/// What is read of an image is what its fields hold.
pub proof fn lemma_image_info_view(image: ImageInfo)
    ensures
        image@.width == image.width,
        image@.height == image.height,
        image@.bits_per_component == image.bits_per_component,
        image@.color_space == image.color_space@,
        image@.filter == opt_text(image.filter),
        image@.data == image.data@,
        image@.page == image.page,
{
}

} // verus!
