//! Which images are found, and where.

use vstd::prelude::*;

use crate::graph::{lemma_filter_name, page_resources};
use crate::images::{
    drawn, form_refs, image_at, images_among, lemma_unused_push, lemma_uses_push, page_refs,
    refs_among, unused, uses_ref, with_drawn, xobject_refs, ImageView,
};
use crate::model::{
    in_name_order, lemma_listing_exists, lemma_name_before_asymmetric, name_before, Dictionary, Obj,
    ObjectRef, Objects,
};
use crate::text::lemma_without_slashes;

verus! {

/// Whether `r` is among `from`, or a form that is reached from there in fewer than
/// `steps` steps refers to it.
pub open spec fn reached_within(
    objects: Objects,
    from: Seq<ObjectRef>,
    r: ObjectRef,
    steps: nat,
) -> bool
    decreases steps,
{
    from.contains(r) || (steps > 0 && exists|form: ObjectRef|
        #![trigger form_refs(objects, form)]
        reached_within(objects, from, form, (steps - 1) as nat) && form_refs(
            objects,
            form,
        ).contains(r))
}

/// Whether `r` is among `from`, or forms lead from there to it.
pub open spec fn is_reached(objects: Objects, from: Seq<ObjectRef>, r: ObjectRef) -> bool {
    exists|steps: nat| #[trigger] reached_within(objects, from, r, steps)
}

/// Whether a page draws the external object `r`, itself or through forms.
pub open spec fn draws(objects: Objects, page: ObjectRef, r: ObjectRef) -> bool {
    is_reached(objects, page_refs(objects, page), r)
}

/// Whether each reference is used once.
pub open spec fn used_once(uses: Seq<(ObjectRef, nat)>) -> bool {
    forall|i: int, j: int|
        #![trigger uses[i], uses[j]]
        0 <= i < j < uses.len() ==> uses[i].0 != uses[j].0
}

/// The references in a dictionary of external objects are its values, under
/// whatever names.
pub proof fn lemma_refs_of_xobjects(xobjects: Dictionary, r: ObjectRef)
    requires
        xobjects.dom().finite(),
    ensures
        xobject_refs(Some(xobjects)).contains(r) <==> xobjects.contains_value(Obj::Ref(r)),
{
    let entries = in_name_order(xobjects);
    lemma_listing_exists(xobjects);
    lemma_refs_among(entries, r);
    if xobjects.contains_value(Obj::Ref(r)) {
        let name = choose|name: Seq<char>|
            #[trigger] xobjects.contains_key(name) && xobjects[name] == Obj::Ref(r);
        let i = choose|i: int| 0 <= i < entries.len() && (#[trigger] entries[i]).0 == name;
        assert(entries[i].1 == Obj::Ref(r));
    }
    if xobject_refs(Some(xobjects)).contains(r) {
        let i = choose|i: int| 0 <= i < entries.len() && (#[trigger] entries[i]).1 == Obj::Ref(r);
        assert(xobjects.contains_key(entries[i].0));
    }
}

/// The references among entries are those that some entry has as its value.
proof fn lemma_refs_among(entries: Seq<(Seq<char>, Obj)>, r: ObjectRef)
    ensures
        refs_among(entries).contains(r) <==> exists|i: int|
            0 <= i < entries.len() && (#[trigger] entries[i]).1 == Obj::Ref(r),
    decreases entries.len(),
{
    if entries.len() > 0 {
        let fewer = entries.drop_last();
        let before = refs_among(fewer);
        let all = refs_among(entries);
        let last = entries.len() - 1;
        lemma_refs_among(fewer, r);
        if all.contains(r) {
            let k = choose|k: int| 0 <= k < all.len() && all[k] == r;
            if k < before.len() {
                assert(before[k] == r);
                let i = choose|i: int| 0 <= i < fewer.len() && (#[trigger] fewer[i]).1 == Obj::Ref(r);
                assert(entries[i].1 == Obj::Ref(r));
            } else {
                assert(entries[last].1 == Obj::Ref(r));
            }
        }
        if exists|i: int| 0 <= i < entries.len() && (#[trigger] entries[i]).1 == Obj::Ref(r) {
            let i = choose|i: int| 0 <= i < entries.len() && (#[trigger] entries[i]).1 == Obj::Ref(r);
            if i < last {
                assert(fewer[i].1 == Obj::Ref(r));
                let k = choose|k: int| 0 <= k < before.len() && before[k] == r;
                assert(all[k] == r);
            } else {
                assert(all[before.len() as int] == r);
            }
        }
    }
}

/// Whether what the forms among `uses` refer to is in use, or in `todo`.
spec fn is_closed(objects: Objects, uses: Seq<(ObjectRef, nat)>, todo: Seq<ObjectRef>) -> bool {
    forall|r: ObjectRef, inner: ObjectRef|
        uses_ref(uses, r) && #[trigger] form_refs(objects, r).contains(inner) ==> uses_ref(
            uses,
            inner,
        ) || todo.contains(inner)
}

/// Whether each of `refs` can be reached from `from`.
spec fn all_reached(objects: Objects, from: Seq<ObjectRef>, refs: Seq<ObjectRef>) -> bool {
    forall|k: int|
        #![trigger refs[k]]
        0 <= k < refs.len() ==> is_reached(objects, from, refs[k])
}

/// What drawing adds: what was to be drawn and all that it refers to, nothing
/// else, and each once.
proof fn lemma_with_drawn(
    objects: Objects,
    uses: Seq<(ObjectRef, nat)>,
    todo: Seq<ObjectRef>,
    page: nat,
    from: Seq<ObjectRef>,
)
    requires
        objects.dom().finite(),
        is_closed(objects, uses, todo),
        used_once(uses),
        all_reached(objects, from, todo),
    ensures
        ({
            let all = with_drawn(objects, uses, todo, page);
            &&& all.len() >= uses.len()
            &&& all.take(uses.len() as int) == uses
            &&& forall|i: int|
                #![trigger all[i]]
                uses.len() <= i < all.len() ==> all[i].1 == page && is_reached(
                    objects,
                    from,
                    all[i].0,
                )
            &&& forall|k: int| #![trigger todo[k]] 0 <= k < todo.len() ==> uses_ref(all, todo[k])
            &&& is_closed(objects, all, seq![])
            &&& used_once(all)
        }),
    decreases unused(objects, uses).len(), todo.len(),
{
    let all = with_drawn(objects, uses, todo, page);
    if todo.len() == 0 {
        assert(todo =~= seq![]);
        assert(all.take(uses.len() as int) =~= uses);
    } else {
        let r = todo[0];
        let rest = todo.drop_first();
        if uses_ref(uses, r) {
            assert forall|a: ObjectRef, inner: ObjectRef|
                uses_ref(uses, a) && #[trigger] form_refs(objects, a).contains(inner) implies
                uses_ref(uses, inner) || rest.contains(inner) by {
                if !uses_ref(uses, inner) {
                    let k = choose|k: int| 0 <= k < todo.len() && todo[k] == inner;
                    assert(rest[k - 1] == inner);
                }
            }
            assert forall|k: int| #![trigger rest[k]] 0 <= k < rest.len() implies is_reached(
                objects,
                from,
                rest[k],
            ) by {
                assert(rest[k] == todo[k + 1]);
            }
            lemma_with_drawn(objects, uses, rest, page, from);
            let j = choose|j: int| 0 <= j < uses.len() && (#[trigger] uses[j]).0 == r;
            assert(all.take(uses.len() as int)[j] == all[j]);
            assert forall|k: int| #![trigger todo[k]] 0 <= k < todo.len() implies uses_ref(
                all,
                todo[k],
            ) by {
                if k > 0 {
                    assert(todo[k] == rest[k - 1]);
                } else {
                    assert(all[j].0 == r);
                }
            }
        } else {
            let more = uses.push((r, page));
            let inner_refs = form_refs(objects, r);
            let next = inner_refs + rest;
            lemma_uses_push(uses, r, page);
            lemma_unused_push(objects, uses, r, page);
            assert forall|a: ObjectRef, inner: ObjectRef|
                uses_ref(more, a) && #[trigger] form_refs(objects, a).contains(inner) implies
                uses_ref(more, inner) || next.contains(inner) by {
                if a == r {
                    let k = choose|k: int| 0 <= k < inner_refs.len() && inner_refs[k] == inner;
                    assert(next[k] == inner);
                } else if !uses_ref(more, inner) {
                    let k = choose|k: int| 0 <= k < todo.len() && todo[k] == inner;
                    assert(next[inner_refs.len() + k - 1] == inner);
                }
            }
            assert(is_reached(objects, from, todo[0]));
            let near = choose|steps: nat| #[trigger] reached_within(objects, from, r, steps);
            assert forall|k: int| #![trigger next[k]] 0 <= k < next.len() implies is_reached(
                objects,
                from,
                next[k],
            ) by {
                if k < inner_refs.len() {
                    assert(next[k] == inner_refs[k]);
                    assert(form_refs(objects, r).contains(next[k]));
                    assert(reached_within(objects, from, next[k], near + 1));
                } else {
                    assert(next[k] == todo[k - inner_refs.len() + 1]);
                }
            }
            assert forall|i: int, j: int|
                #![trigger more[i], more[j]]
                0 <= i < j < more.len() implies more[i].0 != more[j].0 by {
                assert(uses[i] == more[i]);
            }
            lemma_with_drawn(objects, more, next, page, from);
            assert(all.take(more.len() as int) == more);
            assert(all.take(uses.len() as int) =~= uses) by {
                assert(all.take(more.len() as int).take(uses.len() as int) =~= all.take(
                    uses.len() as int,
                ));
                assert(more.take(uses.len() as int) =~= uses);
            }
            assert(all[uses.len() as int] == (r, page)) by {
                assert(all.take(more.len() as int)[uses.len() as int] == all[uses.len() as int]);
            }
            assert forall|i: int| #![trigger all[i]] uses.len() <= i < all.len() implies all[i].1
                == page && is_reached(objects, from, all[i].0) by {
                if i == uses.len() {
                    assert(reached_within(objects, from, all[i].0, near));
                }
            }
            assert forall|k: int| #![trigger todo[k]] 0 <= k < todo.len() implies uses_ref(
                all,
                todo[k],
            ) by {
                if k == 0 {
                    assert(all[uses.len() as int].0 == r);
                } else {
                    assert(next[inner_refs.len() + k - 1] == todo[k]);
                }
            }
        }
    }
}

/// What is reached from references in use is in use.
proof fn lemma_reached_is_used(
    objects: Objects,
    uses: Seq<(ObjectRef, nat)>,
    from: Seq<ObjectRef>,
    r: ObjectRef,
    steps: nat,
)
    requires
        is_closed(objects, uses, seq![]),
        forall|k: int| #![trigger from[k]] 0 <= k < from.len() ==> uses_ref(uses, from[k]),
        reached_within(objects, from, r, steps),
    ensures
        uses_ref(uses, r),
    decreases steps,
{
    if from.contains(r) {
        let k = choose|k: int| 0 <= k < from.len() && from[k] == r;
        assert(uses_ref(uses, from[k]));
    } else {
        let form = choose|form: ObjectRef|
            #![trigger form_refs(objects, form)]
            reached_within(objects, from, form, (steps - 1) as nat) && form_refs(
                objects,
                form,
            ).contains(r);
        lemma_reached_is_used(objects, uses, from, form, (steps - 1) as nat);
    }
}

/// The uses of the first pages, and what the last page adds.
proof fn lemma_last_page(objects: Objects, pages: Seq<ObjectRef>)
    requires
        objects.dom().finite(),
        pages.len() > 0,
    ensures
        ({
            let before = drawn(objects, pages.drop_last());
            let all = drawn(objects, pages);
            &&& all.len() >= before.len()
            &&& all.take(before.len() as int) == before
            &&& forall|i: int|
                #![trigger all[i]]
                before.len() <= i < all.len() ==> all[i].1 == pages.len() && draws(
                    objects,
                    pages.last(),
                    all[i].0,
                )
            &&& forall|r: ObjectRef| #[trigger]
                draws(objects, pages.last(), r) ==> uses_ref(all, r)
            &&& is_closed(objects, all, seq![])
            &&& used_once(all)
        }),
    decreases pages.len(),
{
    let fewer = pages.drop_last();
    let before = drawn(objects, fewer);
    let all = drawn(objects, pages);
    let from = page_refs(objects, pages.last());
    if fewer.len() > 0 {
        lemma_last_page(objects, fewer);
    }
    assert forall|r: ObjectRef, inner: ObjectRef|
        uses_ref(before, r) && #[trigger] form_refs(objects, r).contains(inner) implies uses_ref(
        before,
        inner,
    ) || from.contains(inner) by {
        assert(fewer.len() > 0);
        let nothing: Seq<ObjectRef> = seq![];
        assert(!nothing.contains(inner));
    }
    assert forall|k: int| #![trigger from[k]] 0 <= k < from.len() implies is_reached(
        objects,
        from,
        from[k],
    ) by {
        assert(reached_within(objects, from, from[k], 0));
    }
    lemma_with_drawn(objects, before, from, pages.len(), from);
    assert forall|r: ObjectRef| #[trigger] draws(objects, pages.last(), r) implies uses_ref(
        all,
        r,
    ) by {
        let steps = choose|steps: nat| #[trigger] reached_within(objects, from, r, steps);
        lemma_reached_is_used(objects, all, from, r, steps);
    }
}

/// Each external object is drawn once, in the order of the pages, with the number
/// of the first page that draws it.
pub proof fn lemma_drawn(objects: Objects, pages: Seq<ObjectRef>)
    requires
        objects.dom().finite(),
    ensures
        used_once(drawn(objects, pages)),
        forall|i: int, j: int|
            #![trigger drawn(objects, pages)[i], drawn(objects, pages)[j]]
            0 <= i <= j < drawn(objects, pages).len() ==> drawn(objects, pages)[i].1 <= drawn(
                objects,
                pages,
            )[j].1,
        forall|i: int|
            #![trigger drawn(objects, pages)[i]]
            0 <= i < drawn(objects, pages).len() ==> {
                let (r, page) = drawn(objects, pages)[i];
                &&& 1 <= page <= pages.len()
                &&& draws(objects, pages[page - 1], r)
                &&& forall|earlier: int|
                    0 <= earlier < page - 1 ==> !draws(objects, #[trigger] pages[earlier], r)
            },
        forall|p: int, r: ObjectRef|
            0 <= p < pages.len() && #[trigger] draws(objects, pages[p], r) ==> uses_ref(
                drawn(objects, pages),
                r,
            ),
    decreases pages.len(),
{
    let all = drawn(objects, pages);
    if pages.len() > 0 {
        let fewer = pages.drop_last();
        let before = drawn(objects, fewer);
        lemma_drawn(objects, fewer);
        lemma_last_page(objects, pages);
        assert forall|i: int| 0 <= i < before.len() implies #[trigger] all[i] == before[i] by {
            assert(all.take(before.len() as int)[i] == all[i]);
        }
        assert forall|i: int, j: int|
            #![trigger all[i], all[j]]
            0 <= i <= j < all.len() implies all[i].1 <= all[j].1 by {
            if j < before.len() {
                assert(before[i].1 <= before[j].1);
            } else if i < before.len() {
                assert(all[i] == before[i]);
                assert(before[i].1 <= fewer.len());
            }
        }
        assert forall|p: int, r: ObjectRef|
            0 <= p < pages.len() && #[trigger] draws(objects, pages[p], r) implies uses_ref(
            all,
            r,
        ) by {
            if p < fewer.len() {
                assert(draws(objects, fewer[p], r));
                let k = choose|k: int| 0 <= k < before.len() && (#[trigger] before[k]).0 == r;
                assert(all[k].0 == r);
            }
        }
        assert forall|i: int| #![trigger all[i]] 0 <= i < all.len() implies {
            let (r, page) = all[i];
            &&& 1 <= page <= pages.len()
            &&& draws(objects, pages[page - 1], r)
            &&& forall|earlier: int|
                0 <= earlier < page - 1 ==> !draws(objects, #[trigger] pages[earlier], r)
        } by {
            let (r, page) = all[i];
            if i < before.len() {
                assert(before[i] == all[i]);
                assert(fewer[page - 1] == pages[page - 1]);
                assert forall|earlier: int| 0 <= earlier < page - 1 implies !draws(
                    objects,
                    #[trigger] pages[earlier],
                    r,
                ) by {
                    assert(fewer[earlier] == pages[earlier]);
                }
            } else {
                assert forall|earlier: int| 0 <= earlier < page - 1 implies !draws(
                    objects,
                    #[trigger] pages[earlier],
                    r,
                ) by {
                    if draws(objects, pages[earlier], r) {
                        assert(draws(objects, fewer[earlier], r));
                        let k = choose|k: int|
                            0 <= k < before.len() && (#[trigger] before[k]).0 == r;
                        assert(all[k].0 == all[i].0);
                    }
                }
            }
        }
    }
}

/// Whether the use at `i` leads to an image.
pub open spec fn is_image_use(objects: Objects, uses: Seq<(ObjectRef, nat)>, i: int) -> bool {
    0 <= i < uses.len() && image_at(objects, uses[i].0, uses[i].1) is Some
}

/// Whether `places` are the places of the images among `uses`, in order.
pub open spec fn are_image_places(
    objects: Objects,
    uses: Seq<(ObjectRef, nat)>,
    places: Seq<int>,
) -> bool {
    &&& forall|k: int, l: int|
        #![trigger places[k], places[l]]
        0 <= k < l < places.len() ==> places[k] < places[l]
    &&& forall|k: int|
        #![trigger places[k]]
        0 <= k < places.len() ==> is_image_use(objects, uses, places[k])
    &&& forall|i: int| #[trigger] is_image_use(objects, uses, i) ==> places.contains(i)
}

/// The images found are those that the uses lead to, all of them and in order.
pub proof fn lemma_images_found(objects: Objects, uses: Seq<(ObjectRef, nat)>) -> (places: Seq<int>)
    ensures
        are_image_places(objects, uses, places),
        places.len() == images_among(objects, uses).len(),
        forall|k: int|
            #![trigger images_among(objects, uses)[k]]
            0 <= k < places.len() ==> image_at(
                objects,
                uses[places[k]].0,
                uses[places[k]].1,
            ) == Some(images_among(objects, uses)[k]),
    decreases uses.len(),
{
    if uses.len() == 0 {
        seq![]
    } else {
        let before = uses.drop_last();
        let last = uses.len() - 1;
        let earlier = lemma_images_found(objects, before);
        let places = if is_image_use(objects, uses, last) {
            earlier.push(last)
        } else {
            earlier
        };
        assert forall|i: int| #[trigger] is_image_use(objects, uses, i) implies places.contains(
            i,
        ) by {
            if i < last {
                assert(is_image_use(objects, before, i));
                let k = choose|k: int| 0 <= k < earlier.len() && earlier[k] == i;
                assert(places[k] == i);
            } else {
                assert(places[earlier.len() as int] == last);
            }
        }
        assert forall|k: int| #![trigger places[k]] 0 <= k < places.len() implies is_image_use(
            objects,
            uses,
            places[k],
        ) by {
            if k < earlier.len() {
                assert(is_image_use(objects, before, earlier[k]));
            }
        }
        assert forall|k: int|
            #![trigger images_among(objects, uses)[k]]
            0 <= k < places.len() implies image_at(objects, uses[places[k]].0, uses[places[k]].1)
            == Some(images_among(objects, uses)[k]) by {
            if k < earlier.len() {
                assert(is_image_use(objects, before, earlier[k]));
                assert(images_among(objects, before)[k] == images_among(objects, uses)[k]);
            }
        }
        places
    }
}

/// Every image that a page draws, itself or through forms, is found: with the
/// number of the first page that draws it.
pub proof fn lemma_every_image_found(
    objects: Objects,
    pages: Seq<ObjectRef>,
    p: int,
    r: ObjectRef,
) -> (page: nat)
    requires
        objects.dom().finite(),
        0 <= p < pages.len(),
        draws(objects, pages[p], r),
        image_at(objects, r, 0) is Some,
    ensures
        1 <= page <= p + 1,
        draws(objects, pages[page - 1], r),
        forall|earlier: int|
            0 <= earlier < page - 1 ==> !draws(objects, #[trigger] pages[earlier], r),
        images_among(objects, drawn(objects, pages)).contains(image_at(objects, r, page)->0),
{
    let uses = drawn(objects, pages);
    lemma_drawn(objects, pages);
    let i = choose|i: int| 0 <= i < uses.len() && (#[trigger] uses[i]).0 == r;
    let page = uses[i].1;
    assert(page <= p + 1) by {
        if page > p + 1 {
            assert(!draws(objects, pages[p], r));
        }
    }
    let places = lemma_images_found(objects, uses);
    assert(is_image_use(objects, uses, i));
    let k = choose|k: int| 0 <= k < places.len() && places[k] == i;
    assert(images_among(objects, uses)[k] == image_at(objects, r, page)->0);
    page
}

/// Whether `images` holds every image that one of the pages draws.
pub open spec fn holds_every_image(
    objects: Objects,
    pages: Seq<ObjectRef>,
    images: Seq<ImageView>,
) -> bool {
    forall|p: int, r: ObjectRef|
        0 <= p < pages.len() && #[trigger] draws(objects, pages[p], r) && image_at(
            objects,
            r,
            0,
        ) is Some ==> exists|page: nat|
            page <= p + 1 && images.contains((#[trigger] image_at(objects, r, page))->0)
}

/// No image that a page draws is missing among those found.
pub proof fn lemma_all_images_found(objects: Objects, pages: Seq<ObjectRef>)
    requires
        objects.dom().finite(),
    ensures
        holds_every_image(objects, pages, images_among(objects, drawn(objects, pages))),
{
    let images = images_among(objects, drawn(objects, pages));
    assert forall|p: int, r: ObjectRef|
        0 <= p < pages.len() && #[trigger] draws(objects, pages[p], r) && image_at(
            objects,
            r,
            0,
        ) is Some implies exists|page: nat|
        page <= p + 1 && images.contains((#[trigger] image_at(objects, r, page))->0) by {
        let page = lemma_every_image_found(objects, pages, p, r);
        assert(images.contains(image_at(objects, r, page)->0));
    }
}

/// An image is read off the stream that it is stored as. There is one if the
/// subtype is `Image` and both sides are numbers, and then its sides are these
/// numbers, whatever they are, its data is that of the stream, and its page is the
/// one asked for. Its depth is the number of bits, at most 255, or eight if there is
/// none.
pub proof fn lemma_image_of_stream(
    objects: Objects,
    r: ObjectRef,
    page: nat,
    dict: Dictionary,
    data: Seq<u8>,
)
    requires
        objects.contains_key(r),
        objects[r] == Obj::Stream(dict, data),
    ensures
        image_at(objects, r, page) is Some <==> dict.get("/Subtype"@) == Some(Obj::Name("/Image"@))
            && (dict.get("/Width"@) matches Some(Obj::Number(_))) && (dict.get(
            "/Height"@,
        ) matches Some(Obj::Number(_))),
        image_at(objects, r, page) matches Some(image) ==> {
            &&& dict.get("/Width"@) == Some(Obj::Number(image.width))
            &&& dict.get("/Height"@) == Some(Obj::Number(image.height))
            &&& image.data == data
            &&& image.page == page
            &&& dict.get("/BitsPerComponent"@) matches Some(Obj::Number(bits)) ==> {
                &&& bits <= 255 ==> image.bits_per_component == bits
                &&& bits > 255 ==> image.bits_per_component == 255
            }
            &&& !(dict.get("/BitsPerComponent"@) matches Some(Obj::Number(_)))
                ==> image.bits_per_component == 8
        },
{
}

/// What is no stream is no image.
pub proof fn lemma_only_streams_are_images(objects: Objects, r: ObjectRef, page: nat)
    requires
        image_at(objects, r, page) is Some,
    ensures
        objects.contains_key(r),
        objects[r] is Stream,
{
}

/// The name of the colour space is the one in the image's dictionary, or the one
/// that it refers to, without the slashes before it: of the name only slashes are
/// missing, and all that it starts with. An image without such a name is RGB.
pub proof fn lemma_color_space_of_stream(
    objects: Objects,
    r: ObjectRef,
    page: nat,
    dict: Dictionary,
    data: Seq<u8>,
    name: Seq<char>,
)
    requires
        objects.contains_key(r),
        objects[r] == Obj::Stream(dict, data),
        image_at(objects, r, page) is Some,
    ensures
        ({
            let space = image_at(objects, r, page)->0.color_space;
            let named = dict.get("/ColorSpace"@) == Some(Obj::Name(name)) || (dict.get(
                "/ColorSpace"@,
            ) matches Some(Obj::Ref(q)) && objects.get(q) == Some(Obj::Name(name)));
            named ==> {
                &&& space.len() <= name.len()
                &&& space == name.skip(name.len() - space.len())
                &&& forall|i: int|
                    #![trigger name[i]]
                    0 <= i < name.len() - space.len() ==> name[i] == '/'
                &&& space.len() > 0 ==> space[0] != '/'
            }
        }),
        !(dict.get("/ColorSpace"@) matches Some(Obj::Name(_))) && !(dict.get(
            "/ColorSpace"@,
        ) matches Some(Obj::Ref(q)) && (objects.get(q) matches Some(Obj::Name(_))))
            ==> image_at(objects, r, page)->0.color_space == "DeviceRGB"@,
{
    lemma_without_slashes(name);
}

/// The filter of an image is the name in its `Filter` entry, or the first of the
/// names in an array there.
pub proof fn lemma_filter_of_stream(
    objects: Objects,
    r: ObjectRef,
    page: nat,
    dict: Dictionary,
    data: Seq<u8>,
    name: Seq<char>,
)
    requires
        objects.contains_key(r),
        objects[r] == Obj::Stream(dict, data),
        image_at(objects, r, page) is Some,
    ensures
        image_at(objects, r, page)->0.filter == Some(name) <==> dict.contains_key("/Filter"@) && (
        dict["/Filter"@] == Obj::Name(name) || (dict["/Filter"@] matches Obj::Array(items)
            && items.len() > 0 && items[0] == Obj::Name(name))),
{
    lemma_filter_name(dict, name);
}

/// An image on another page differs in the number of the page alone.
pub proof fn lemma_image_on_pages(objects: Objects, r: ObjectRef, page: nat, other: nat)
    ensures
        image_at(objects, r, page) is Some == image_at(objects, r, other) is Some,
        image_at(objects, r, page) matches Some(image) ==> image_at(objects, r, other) == Some(
            ImageView { page: other, ..image },
        ),
{
}

/// The references in a dictionary of external objects come in the order of their
/// names.
pub proof fn lemma_refs_in_name_order(
    xobjects: Dictionary,
    a: Seq<char>,
    b: Seq<char>,
    first: ObjectRef,
    second: ObjectRef,
)
    requires
        xobjects.dom().finite(),
        xobjects.contains_key(a),
        xobjects.contains_key(b),
        xobjects[a] == Obj::Ref(first),
        xobjects[b] == Obj::Ref(second),
        name_before(a, b),
    ensures
        exists|i: int, j: int|
            #![trigger xobject_refs(Some(xobjects))[i], xobject_refs(Some(xobjects))[j]]
            0 <= i < j < xobject_refs(Some(xobjects)).len() && xobject_refs(Some(xobjects))[i]
                == first && xobject_refs(Some(xobjects))[j] == second,
{
    let entries = in_name_order(xobjects);
    lemma_listing_exists(xobjects);
    let i = choose|i: int| 0 <= i < entries.len() && (#[trigger] entries[i]).0 == a;
    let j = choose|j: int| 0 <= j < entries.len() && (#[trigger] entries[j]).0 == b;
    if j <= i {
        if j < i {
            assert(name_before(entries[j].0, entries[i].0));
        }
        lemma_name_before_asymmetric(a, b);
    }
    assert(entries[i].1 == Obj::Ref(first) && entries[j].1 == Obj::Ref(second));
    let front = entries.take(j);
    let refs = refs_among(entries);
    lemma_refs_split(entries, j);
    lemma_refs_among(front, first);
    assert(front[i].1 == Obj::Ref(first));
    let k = choose|k: int| 0 <= k < refs_among(front).len() && refs_among(front)[k] == first;
    assert(refs[k] == first);
    let rest = entries.skip(j);
    lemma_refs_among(rest, second);
    assert(rest[0].1 == Obj::Ref(second));
    let l = choose|l: int| 0 <= l < refs_among(rest).len() && refs_among(rest)[l] == second;
    let found = xobject_refs(Some(xobjects));
    assert(found == refs);
    assert(found[k] == first);
    assert(found[refs_among(front).len() + l] == second);
}

/// The references among entries are those among the first of them and then those
/// among the others.
proof fn lemma_refs_split(entries: Seq<(Seq<char>, Obj)>, at: int)
    requires
        0 <= at <= entries.len(),
    ensures
        refs_among(entries) == refs_among(entries.take(at)) + refs_among(entries.skip(at)),
    decreases entries.len() - at,
{
    if at == entries.len() {
        assert(entries.take(at) =~= entries);
        assert(entries.skip(at) =~= seq![]);
        assert(refs_among(entries.skip(at)) =~= seq![]);
        assert(refs_among(entries) + refs_among(entries.skip(at)) =~= refs_among(entries));
    } else {
        let fewer = entries.drop_last();
        lemma_refs_split(fewer, at);
        assert(fewer.take(at) =~= entries.take(at));
        assert(entries.skip(at).drop_last() =~= fewer.skip(at));
        assert(entries.skip(at).last() == entries.last());
        assert(refs_among(entries) =~= refs_among(entries.take(at)) + refs_among(
            entries.skip(at),
        ));
    }
}

/// A page with resources refers to what their dictionary of external objects
/// holds, and to nothing else. That dictionary stands in the `XObject` entry or is
/// referred to there.
pub proof fn lemma_refs_of_page(
    objects: Objects,
    page: ObjectRef,
    page_dict: Dictionary,
    resources: Dictionary,
    xobjects: Dictionary,
    r: ObjectRef,
)
    requires
        objects.contains_key(page),
        objects[page] == Obj::Dict(page_dict),
        page_resources(objects, page_dict) == Some(resources),
        resources.contains_key("/XObject"@),
        resources["/XObject"@] == Obj::Dict(xobjects) || (
        resources["/XObject"@] matches Obj::Ref(q) && objects.contains_key(q) && objects[q]
            == Obj::Dict(xobjects)),
        xobjects.dom().finite(),
    ensures
        page_refs(objects, page) == xobject_refs(Some(xobjects)),
        page_refs(objects, page).contains(r) <==> xobjects.contains_value(Obj::Ref(r)),
{
    lemma_refs_of_xobjects(xobjects, r);
}

/// A page that refers to external objects has resources that name some.
pub proof fn lemma_refs_need_resources(objects: Objects, page: ObjectRef)
    requires
        page_refs(objects, page).len() > 0,
    ensures
        objects.contains_key(page),
        objects[page] matches Obj::Dict(page_dict) && (page_resources(
            objects,
            page_dict,
        ) matches Some(resources) && resources.contains_key("/XObject"@)),
{
}

/// A form with resources refers to what their dictionary of external objects
/// holds, and to nothing else.
pub proof fn lemma_refs_of_form(
    objects: Objects,
    form: ObjectRef,
    dict: Dictionary,
    data: Seq<u8>,
    resources: Dictionary,
    xobjects: Dictionary,
    r: ObjectRef,
)
    requires
        objects.contains_key(form),
        objects[form] == Obj::Stream(dict, data),
        dict.get("/Subtype"@) == Some(Obj::Name("/Form"@)),
        dict.contains_key("/Resources"@),
        dict["/Resources"@] == Obj::Dict(resources) || (dict["/Resources"@] matches Obj::Ref(p)
            && objects.contains_key(p) && objects[p] == Obj::Dict(resources)),
        resources.contains_key("/XObject"@),
        resources["/XObject"@] == Obj::Dict(xobjects) || (
        resources["/XObject"@] matches Obj::Ref(q) && objects.contains_key(q) && objects[q]
            == Obj::Dict(xobjects)),
        xobjects.dom().finite(),
    ensures
        form_refs(objects, form) == xobject_refs(Some(xobjects)),
        form_refs(objects, form).contains(r) <==> xobjects.contains_value(Obj::Ref(r)),
{
    lemma_refs_of_xobjects(xobjects, r);
}

/// Only a form refers to external objects, and only one that has resources.
pub proof fn lemma_only_forms_refer(objects: Objects, form: ObjectRef)
    requires
        form_refs(objects, form).len() > 0,
    ensures
        objects.contains_key(form),
        objects[form] matches Obj::Stream(dict, _) && dict.get("/Subtype"@) == Some(
            Obj::Name("/Form"@),
        ) && dict.contains_key("/Resources"@),
{
}

/// Drawing one list and then another is drawing both in a row.
pub proof fn lemma_drawn_in_a_row(
    objects: Objects,
    uses: Seq<(ObjectRef, nat)>,
    first: Seq<ObjectRef>,
    second: Seq<ObjectRef>,
    page: nat,
)
    requires
        objects.dom().finite(),
    ensures
        with_drawn(objects, uses, first + second, page) == with_drawn(
            objects,
            with_drawn(objects, uses, first, page),
            second,
            page,
        ),
    decreases unused(objects, uses).len(), first.len(),
{
    let all = first + second;
    if first.len() == 0 {
        assert(all =~= second);
    } else {
        let r = first[0];
        let rest = first.drop_first();
        assert(all[0] == r);
        assert(all.drop_first() =~= rest + second);
        if uses_ref(uses, r) {
            lemma_drawn_in_a_row(objects, uses, rest, second, page);
        } else {
            lemma_unused_push(objects, uses, r, page);
            let inner = form_refs(objects, r);
            assert(inner + (rest + second) =~= (inner + rest) + second);
            lemma_drawn_in_a_row(
                objects,
                uses.push((r, page)),
                inner + rest,
                second,
                page,
            );
        }
    }
}

/// Drawing a reference that is in use changes nothing. Any other is put behind
/// what is in use, and what it refers to, if it is a form, behind it.
pub proof fn lemma_one_drawn(
    objects: Objects,
    uses: Seq<(ObjectRef, nat)>,
    r: ObjectRef,
    page: nat,
)
    requires
        objects.dom().finite(),
    ensures
        uses_ref(uses, r) ==> with_drawn(objects, uses, seq![r], page) == uses,
        !uses_ref(uses, r) ==> with_drawn(objects, uses, seq![r], page) == with_drawn(
            objects,
            uses.push((r, page)),
            form_refs(objects, r),
            page,
        ),
        with_drawn(objects, uses, seq![], page) == uses,
{
    let todo = seq![r];
    assert(todo.drop_first() =~= seq![]);
    assert(form_refs(objects, r) + todo.drop_first() =~= form_refs(objects, r));
    assert(with_drawn(objects, uses, seq![], page) == uses);
}

/// Further pages leave what the first ones draw, and add what the next one draws.
pub proof fn lemma_drawn_by_more_pages(objects: Objects, pages: Seq<ObjectRef>, next: ObjectRef)
    requires
        objects.dom().finite(),
    ensures
        drawn(objects, Seq::<ObjectRef>::empty()).len() == 0,
        drawn(objects, pages.push(next)) == with_drawn(
            objects,
            drawn(objects, pages),
            page_refs(objects, next),
            pages.len() + 1,
        ),
        drawn(objects, pages).len() <= drawn(objects, pages.push(next)).len(),
        drawn(objects, pages.push(next)).take(drawn(objects, pages).len() as int) == drawn(
            objects,
            pages,
        ),
{
    assert(pages.push(next).drop_last() =~= pages);
    lemma_last_page(objects, pages.push(next));
}

/// The images among two lists of uses are those of the first and then those of the
/// second.
pub proof fn lemma_images_in_a_row(
    objects: Objects,
    first: Seq<(ObjectRef, nat)>,
    second: Seq<(ObjectRef, nat)>,
)
    ensures
        images_among(objects, first + second) == images_among(objects, first) + images_among(
            objects,
            second,
        ),
    decreases second.len(),
{
    if second.len() == 0 {
        assert(first + second =~= first);
        assert(images_among(objects, first) + images_among(objects, second) =~= images_among(
            objects,
            first,
        ));
    } else {
        lemma_images_in_a_row(objects, first, second.drop_last());
        assert((first + second).drop_last() =~= first + second.drop_last());
        assert((first + second).last() == second.last());
        assert(images_among(objects, first + second) =~= images_among(objects, first)
            + images_among(objects, second));
    }
}

/// Every image found is stored: there is a stream of the subtype `Image` with its
/// width, its height and its data, and the page that it is said to be on draws it.
pub proof fn lemma_found_images_are_stored(
    objects: Objects,
    pages: Seq<ObjectRef>,
    k: int,
) -> (r: ObjectRef)
    requires
        objects.dom().finite(),
        0 <= k < images_among(objects, drawn(objects, pages)).len(),
    ensures
        ({
            let image = images_among(objects, drawn(objects, pages))[k];
            &&& objects.contains_key(r)
            &&& objects[r] matches Obj::Stream(dict, data)
            &&& dict.get("/Subtype"@) == Some(Obj::Name("/Image"@))
            &&& dict.get("/Width"@) == Some(Obj::Number(image.width))
            &&& dict.get("/Height"@) == Some(Obj::Number(image.height))
            &&& data == image.data
            &&& 1 <= image.page <= pages.len()
            &&& draws(objects, pages[image.page - 1], r)
        }),
{
    let uses = drawn(objects, pages);
    let places = lemma_images_found(objects, uses);
    let image = images_among(objects, uses)[k];
    let (r, page) = uses[places[k]];
    assert(is_image_use(objects, uses, places[k]));
    lemma_drawn(objects, pages);
    assert(image_at(objects, r, page) == Some(image));
    r
}

/// No image that a page names is missing: where the external objects of a page,
/// found through its own resources, hold a reference to a stream of the subtype
/// `Image` with a width and a height, an image with this width, height and data is
/// found, on that page or an earlier one.
pub proof fn lemma_named_image_found(
    objects: Objects,
    pages: Seq<ObjectRef>,
    p: int,
    page_dict: Dictionary,
    resources: Dictionary,
    xobjects: Dictionary,
    name: Seq<char>,
    r: ObjectRef,
    dict: Dictionary,
    data: Seq<u8>,
    width: u32,
    height: u32,
) -> (k: int)
    requires
        objects.dom().finite(),
        xobjects.dom().finite(),
        0 <= p < pages.len(),
        objects.contains_key(pages[p]),
        objects[pages[p]] == Obj::Dict(page_dict),
        page_dict.get("/Resources"@) == Some(Obj::Dict(resources)),
        resources.get("/XObject"@) == Some(Obj::Dict(xobjects)),
        xobjects.get(name) == Some(Obj::Ref(r)),
        objects.contains_key(r),
        objects[r] == Obj::Stream(dict, data),
        dict.get("/Subtype"@) == Some(Obj::Name("/Image"@)),
        dict.get("/Width"@) == Some(Obj::Number(width)),
        dict.get("/Height"@) == Some(Obj::Number(height)),
    ensures
        ({
            let images = images_among(objects, drawn(objects, pages));
            &&& 0 <= k < images.len()
            &&& images[k].width == width
            &&& images[k].height == height
            &&& images[k].data == data
            &&& 1 <= images[k].page <= p + 1
        }),
{
    let page = pages[p];
    assert(xobjects.contains_key(name));
    assert(xobjects.contains_value(Obj::Ref(r)));
    lemma_refs_of_page(objects, page, page_dict, resources, xobjects, r);
    assert(reached_within(objects, page_refs(objects, page), r, 0));
    assert(draws(objects, page, r));
    let number = lemma_every_image_found(objects, pages, p, r);
    let images = images_among(objects, drawn(objects, pages));
    let wanted = image_at(objects, r, number)->0;
    choose|k: int| 0 <= k < images.len() && images[k] == wanted
}

} // verus!
