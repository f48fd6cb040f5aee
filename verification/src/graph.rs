//! Following references through the object graph.

use vstd::prelude::*;

use crate::model::{dict_at, Dictionary, Obj, ObjectRef, Objects};
use crate::objects::{
    array_get, context_objects, dict_entries, dict_get, inspect, is_plain_key, lookup,
    object_count, object_value, opt_entries, Context, Dict, Object, RawStream, Shape,
};

verus! {

/// The dictionary that a value is, or refers to.
pub open spec fn resolved_dict(objects: Objects, value: Obj) -> Option<Dictionary> {
    match value {
        Obj::Dict(d) => Some(d),
        Obj::Ref(r) => dict_at(objects, r),
        _ => None,
    }
}

/// The dictionary that an object is, or refers to. A reference is followed
/// once: one that leads to another reference gives nothing.
pub fn resolve_dict<'a>(ctx: &'a Context, obj: &'a Object) -> (dict: Option<&'a Dict>)
    ensures
        opt_entries(dict) == resolved_dict(context_objects(*ctx), object_value(*obj)),
{
    match inspect(obj) {
        Shape::Dict(d) => Some(d),
        Shape::Ref(r) => match lookup(ctx, r) {
            Some(found) => match inspect(found) {
                Shape::Dict(d) => Some(d),
                _ => None,
            },
            None => None,
        },
        _ => None,
    }
}

/// The name of the first filter of a stream with the dictionary `dict`.
pub open spec fn filter_name(dict: Dictionary) -> Option<Seq<char>> {
    match dict.get("/Filter"@) {
        Some(Obj::Name(name)) => Some(name),
        Some(Obj::Array(items)) => if items.len() > 0 && items[0] is Name {
            Some(items[0]->Name_0)
        } else {
            None
        },
        _ => None,
    }
}

/// The name of the first filter of a stream, with its slash: its `Filter` entry
/// if that is a name, or the first item of an array there if that is a name.
pub fn get_filter_name(stream: &RawStream<'_>) -> (name: Option<String>)
    ensures
        match name {
            Some(n) => filter_name(dict_entries(*stream.dict)) == Some(n@),
            None => filter_name(dict_entries(*stream.dict)) is None,
        },
{
    proof {
        lemma_keys();
    }
    match dict_get(stream.dict, "Filter") {
        Some(filter) => match inspect(filter) {
            Shape::Name(n) => Some(n.to_owned()),
            Shape::Array(a) => match array_get(a, 0) {
                Some(first) => match inspect(first) {
                    Shape::Name(n) => Some(n.to_owned()),
                    _ => None,
                },
                None => None,
            },
            _ => None,
        },
        None => None,
    }
}

/// The resources in the first `Resources` entry on the way up from `node`, which
/// follows the `Parent` entries for at most `depth` steps. An entry that leads to
/// no dictionary hides those above it.
pub open spec fn resources_within(objects: Objects, node: Dictionary, depth: nat) -> Option<
    Dictionary,
>
    decreases depth,
{
    match node.get("/Resources"@) {
        Some(own) => resolved_dict(objects, own),
        None => match node.get("/Parent"@) {
            Some(Obj::Ref(parent)) => match dict_at(objects, parent) {
                Some(above) => if depth > 0 {
                    resources_within(objects, above, (depth - 1) as nat)
                } else {
                    None
                },
                None => None,
            },
            _ => None,
        },
    }
}

/// The resources of a page with the dictionary `page`: its own, or else those of
/// the nearest node above it that has some. A way up with more steps than there
/// are objects would lead round in a circle.
pub open spec fn page_resources(objects: Objects, page: Dictionary) -> Option<Dictionary> {
    resources_within(objects, page, objects.dom().len())
}

/// The resource dictionary of a page: its own `Resources` entry, or else the one
/// of the nearest node above it that has one. An entry that leads to no dictionary
/// hides those above it.
pub fn get_page_resources<'a>(ctx: &'a Context, page_dict: &'a Dict) -> (dict: Option<&'a Dict>)
    ensures
        opt_entries(dict) == page_resources(context_objects(*ctx), dict_entries(*page_dict)),
{
    proof {
        lemma_keys();
    }
    let ghost objects = context_objects(*ctx);
    let ghost found = page_resources(objects, dict_entries(*page_dict));
    let mut node: &'a Dict = page_dict;
    let mut steps: usize = object_count(ctx);
    loop
        invariant
            objects == context_objects(*ctx),
            found == page_resources(objects, dict_entries(*page_dict)),
            found == resources_within(objects, dict_entries(*node), steps as nat),
            is_plain_key("Resources"@),
            seq!['/'] + "Resources"@ == "/Resources"@,
            is_plain_key("Parent"@),
            seq!['/'] + "Parent"@ == "/Parent"@,
        decreases steps,
    {
        if let Some(own) = dict_get(node, "Resources") {
            return resolve_dict(ctx, own);
        }
        let parent = match dict_get(node, "Parent") {
            Some(value) => match inspect(value) {
                Shape::Ref(r) => lookup(ctx, r),
                _ => {
                    return None;
                },
            },
            None => {
                return None;
            },
        };
        let above = match parent {
            Some(object) => match inspect(object) {
                Shape::Dict(dict) => dict,
                _ => {
                    return None;
                },
            },
            None => {
                return None;
            },
        };
        if steps == 0 {
            return None;
        }
        node = above;
        steps = steps - 1;
    }
}

/// Whether the way up from `node` comes to a `Resources` entry in at most `depth`
/// steps.
spec fn comes_to_resources(objects: Objects, node: ObjectRef, depth: nat) -> bool
    decreases depth,
{
    match dict_at(objects, node) {
        Some(entries) => entries.contains_key("/Resources"@) || (depth > 0 && (entries.get(
            "/Parent"@,
        ) matches Some(Obj::Ref(parent)) && comes_to_resources(
            objects,
            parent,
            (depth - 1) as nat,
        ))),
        None => false,
    }
}

/// On a longer way a `Resources` entry is found too, and it is the same.
proof fn lemma_longer_way(objects: Objects, node: ObjectRef, depth: nat, more: nat)
    requires
        comes_to_resources(objects, node, depth),
        depth <= more,
    ensures
        comes_to_resources(objects, node, more),
        resources_within(objects, dict_at(objects, node)->0, depth) == resources_within(
            objects,
            dict_at(objects, node)->0,
            more,
        ),
    decreases depth,
{
    let entries = dict_at(objects, node)->0;
    if !entries.contains_key("/Resources"@) {
        if let Some(Obj::Ref(parent)) = entries.get("/Parent"@) {
            lemma_longer_way(objects, parent, (depth - 1) as nat, (more - 1) as nat);
        }
    }
}

/// Where the way up does not come to a `Resources` entry there are no resources.
proof fn lemma_no_way(objects: Objects, node: ObjectRef, depth: nat)
    requires
        !comes_to_resources(objects, node, depth),
        dict_at(objects, node) is Some,
    ensures
        resources_within(objects, dict_at(objects, node)->0, depth) is None,
    decreases depth,
{
    let entries = dict_at(objects, node)->0;
    if let Some(Obj::Ref(parent)) = entries.get("/Parent"@) {
        if dict_at(objects, parent) is Some && depth > 0 {
            lemma_no_way(objects, parent, (depth - 1) as nat);
        }
    }
}

/// The shortest way up to a `Resources` entry passes as many objects as it has
/// steps, and one more.
proof fn lemma_way_objects(objects: Objects, node: ObjectRef, depth: nat) -> (passed: Set<
    ObjectRef,
>)
    requires
        comes_to_resources(objects, node, depth),
        depth > 0 ==> !comes_to_resources(objects, node, (depth - 1) as nat),
    ensures
        passed.subset_of(objects.dom()),
        passed.finite(),
        passed.len() == depth + 1,
        forall|r: ObjectRef| #[trigger]
            passed.contains(r) ==> comes_to_resources(objects, r, depth),
    decreases depth,
{
    assert(objects.contains_key(node));
    if depth == 0 {
        let passed = Set::empty().insert(node);
        assert(passed.subset_of(objects.dom()));
        passed
    } else {
        let parent = dict_at(objects, node)->0.get("/Parent"@)->0->Ref_0;
        let shorter = (depth - 1) as nat;
        let below = lemma_way_objects(objects, parent, shorter);
        assert(!below.contains(node));
        assert forall|r: ObjectRef| #[trigger] below.insert(node).contains(r) implies
            comes_to_resources(objects, r, depth) by {
            if r != node {
                lemma_longer_way(objects, r, shorter, depth);
            }
        }
        below.insert(node)
    }
}

/// A `Resources` entry that the way up comes to at all is fewer steps away than
/// there are objects.
proof fn lemma_way_is_short(objects: Objects, node: ObjectRef, depth: nat)
    requires
        objects.dom().finite(),
        comes_to_resources(objects, node, depth),
    ensures
        objects.dom().len() > 0,
        comes_to_resources(objects, node, (objects.dom().len() - 1) as nat),
    decreases depth,
{
    if depth > 0 && comes_to_resources(objects, node, (depth - 1) as nat) {
        lemma_way_is_short(objects, node, (depth - 1) as nat);
    } else {
        let passed = lemma_way_objects(objects, node, depth);
        vstd::set_lib::lemma_len_subset(passed, objects.dom());
        lemma_longer_way(objects, node, depth, (objects.dom().len() - 1) as nat);
    }
}

/// A page inherits its resources from however far above: looking further up than
/// there are objects finds nothing more.
pub proof fn lemma_resources_from_any_height(objects: Objects, page: Dictionary, depth: nat)
    requires
        objects.dom().finite(),
        depth >= objects.dom().len(),
    ensures
        resources_within(objects, page, depth) == page_resources(objects, page),
{
    if !page.contains_key("/Resources"@) {
        if let Some(Obj::Ref(parent)) = page.get("/Parent"@) {
            if dict_at(objects, parent) is Some {
                assert(objects.contains_key(parent));
                let least = (objects.dom().len() - 1) as nat;
                let more = (depth - 1) as nat;
                if comes_to_resources(objects, parent, more) {
                    lemma_way_is_short(objects, parent, more);
                    lemma_longer_way(objects, parent, least, more);
                } else {
                    if comes_to_resources(objects, parent, least) {
                        lemma_longer_way(objects, parent, least, more);
                    }
                    lemma_no_way(objects, parent, more);
                    lemma_no_way(objects, parent, least);
                }
            }
        }
    }
}

/// The keys that this library looks up are plain, and what they are behind a
/// slash.
proof fn lemma_keys()
    ensures
        is_plain_key("Filter"@),
        seq!['/'] + "Filter"@ == "/Filter"@,
        is_plain_key("Resources"@),
        seq!['/'] + "Resources"@ == "/Resources"@,
        is_plain_key("Parent"@),
        seq!['/'] + "Parent"@ == "/Parent"@,
{
    reveal_strlit("Filter");
    reveal_strlit("/Filter");
    reveal_strlit("Resources");
    reveal_strlit("/Resources");
    reveal_strlit("Parent");
    reveal_strlit("/Parent");
    assert(seq!['/'] + "Filter"@ =~= "/Filter"@);
    assert(seq!['/'] + "Resources"@ =~= "/Resources"@);
    assert(seq!['/'] + "Parent"@ =~= "/Parent"@);
}

/// A dictionary is found where the value is one, or refers to an object that is
/// one, and nowhere else.
pub proof fn lemma_resolved_dict(objects: Objects, value: Obj, dict: Dictionary)
    ensures
        resolved_dict(objects, value) == Some(dict) <==> (value == Obj::Dict(dict) || (
        value matches Obj::Ref(r) && objects.contains_key(r) && objects[r] == Obj::Dict(dict))),
{
}

/// The filter is the name in the `Filter` entry, or the first item of an array
/// there if that is a name, and there is none otherwise.
pub proof fn lemma_filter_name(dict: Dictionary, name: Seq<char>)
    ensures
        filter_name(dict) == Some(name) <==> dict.contains_key("/Filter"@) && (dict["/Filter"@]
            == Obj::Name(name) || (dict["/Filter"@] matches Obj::Array(items) && items.len() > 0
            && items[0] == Obj::Name(name))),
{
}

/// Whether `way` leads up from a page by its parents to the first dictionary with
/// a `Resources` entry.
pub open spec fn leads_to_resources(objects: Objects, way: Seq<Dictionary>) -> bool {
    &&& way.len() > 0
    &&& way.last().contains_key("/Resources"@)
    &&& forall|k: int|
        #![trigger way[k]]
        0 <= k < way.len() - 1 ==> !way[k].contains_key("/Resources"@) && way[k].contains_key(
            "/Parent"@,
        ) && (way[k]["/Parent"@] matches Obj::Ref(parent) && objects.contains_key(parent)
            && objects[parent] == Obj::Dict(way[k + 1]))
}

/// The way up from a page, for a depth that it does not exceed.
proof fn lemma_along_way(objects: Objects, way: Seq<Dictionary>, depth: nat)
    requires
        leads_to_resources(objects, way),
        depth >= way.len() - 1,
    ensures
        resources_within(objects, way[0], depth) == resolved_dict(
            objects,
            way.last()["/Resources"@],
        ),
    decreases way.len(),
{
    if way.len() > 1 {
        let rest = way.drop_first();
        let node = way[0];
        assert(objects[node["/Parent"@]->Ref_0] == Obj::Dict(way[1]));
        assert(rest[0] == way[1]);
        assert forall|k: int| #![trigger rest[k]] 0 <= k < rest.len() - 1 implies !rest[k].contains_key(
            "/Resources"@,
        ) && rest[k].contains_key("/Parent"@) && (rest[k]["/Parent"@] matches Obj::Ref(parent)
            && objects.contains_key(parent) && objects[parent] == Obj::Dict(rest[k + 1])) by {
            assert(rest[k] == way[k + 1] && rest[k + 1] == way[k + 2]);
        }
        assert(rest.last() == way.last());
        lemma_along_way(objects, rest, (depth - 1) as nat);
    } else {
        assert(way.last() == way[0]);
    }
}

/// A page has the resources that the first `Resources` entry on its way up leads
/// to, however long that way is.
pub proof fn lemma_nearest_resources(objects: Objects, way: Seq<Dictionary>)
    requires
        objects.dom().finite(),
        leads_to_resources(objects, way),
    ensures
        page_resources(objects, way[0]) == resolved_dict(objects, way.last()["/Resources"@]),
{
    let depth = objects.dom().len() + way.len();
    lemma_along_way(objects, way, depth);
    lemma_resources_from_any_height(objects, way[0], depth);
}

/// A page that has resources has a way up to them.
pub proof fn lemma_resources_have_a_way(objects: Objects, page: Dictionary) -> (way: Seq<Dictionary>)
    requires
        page_resources(objects, page) is Some,
    ensures
        leads_to_resources(objects, way),
        way[0] == page,
{
    lemma_way_within(objects, page, objects.dom().len())
}

/// The way up to resources within a depth.
proof fn lemma_way_within(objects: Objects, node: Dictionary, depth: nat) -> (way: Seq<Dictionary>)
    requires
        resources_within(objects, node, depth) is Some,
    ensures
        leads_to_resources(objects, way),
        way[0] == node,
    decreases depth,
{
    if node.contains_key("/Resources"@) {
        seq![node]
    } else {
        let parent = node["/Parent"@]->Ref_0;
        let above = objects[parent]->Dict_0;
        let rest = lemma_way_within(objects, above, (depth - 1) as nat);
        let way = seq![node] + rest;
        assert(way.last() == rest.last());
        assert forall|k: int| #![trigger way[k]] 0 <= k < way.len() - 1 implies !way[k].contains_key(
            "/Resources"@,
        ) && way[k].contains_key("/Parent"@) && (way[k]["/Parent"@] matches Obj::Ref(up)
            && objects.contains_key(up) && objects[up] == Obj::Dict(way[k + 1])) by {
            if k == 0 {
                assert(way[1] == rest[0]);
            } else {
                assert(way[k] == rest[k - 1] && way[k + 1] == rest[k]);
            }
        }
        way
    }
}

} // verus!
