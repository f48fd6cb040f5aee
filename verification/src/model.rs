//! What a PDF document holds, in mathematical terms: the values that the
//! contracts of this library speak of.

use vstd::prelude::*;

verus! {

/// The number of an indirect object, as in `5 0 R`.
#[derive(Clone, Copy, Debug, PartialEq, Eq, Structural)]
pub struct ObjectRef {
    pub object_number: u32,
    pub generation_number: u16,
}

/// The value of a PDF object, as far as this library reads it.
pub enum Obj {
    /// A name in its encoded form, with the leading slash.
    Name(Seq<char>),
    Ref(ObjectRef),
    /// A number, truncated towards zero and clamped to the range of `u32`.
    Number(u32),
    /// A literal or hexadecimal string, decoded to text.
    Text(Seq<char>),
    /// A hexadecimal string whose digits cannot be cut into pairs, so that
    /// no text can be read from it.
    BrokenText,
    Array(Seq<Obj>),
    Dict(Dictionary),
    Stream(Dictionary, Seq<u8>),
    /// A boolean or null.
    Other,
}

/// The entries of a dictionary, by encoded name.
pub type Dictionary = Map<Seq<char>, Obj>;

/// The indirect objects of a document, by number.
pub type Objects = Map<ObjectRef, Obj>;

/// The dictionary stored under `r`, if what is stored there is one.
pub open spec fn dict_at(objects: Objects, r: ObjectRef) -> Option<Dictionary> {
    match objects.get(r) {
        Some(Obj::Dict(d)) => Some(d),
        _ => None,
    }
}

/// The order of names: character by character, a proper prefix first.
pub open spec fn name_before(a: Seq<char>, b: Seq<char>) -> bool
    decreases a.len(),
{
    if b.len() == 0 {
        false
    } else if a.len() == 0 {
        true
    } else if a[0] != b[0] {
        a[0] < b[0]
    } else {
        name_before(a.drop_first(), b.drop_first())
    }
}

/// Whether `entries` lists the entries of `d`, each once, by ascending name.
pub open spec fn lists_by_name(d: Dictionary, entries: Seq<(Seq<char>, Obj)>) -> bool {
    &&& forall|i: int, j: int|
        #![trigger entries[i], entries[j]]
        0 <= i < j < entries.len() ==> name_before(entries[i].0, entries[j].0)
    &&& forall|i: int|
        #![trigger entries[i]]
        0 <= i < entries.len() ==> d.contains_key(entries[i].0) && d[entries[i].0] == entries[i].1
    &&& forall|name: Seq<char>| #[trigger]
        d.contains_key(name) ==> exists|i: int|
            0 <= i < entries.len() && (#[trigger] entries[i]).0 == name
}

/// The entries of a dictionary by ascending name.
pub open spec fn in_name_order(d: Dictionary) -> Seq<(Seq<char>, Obj)> {
    choose|entries: Seq<(Seq<char>, Obj)>| lists_by_name(d, entries)
}

/// No two names come before each other.
pub(crate) proof fn lemma_name_before_asymmetric(a: Seq<char>, b: Seq<char>)
    requires
        name_before(a, b),
    ensures
        !name_before(b, a),
    decreases a.len(),
{
    if a.len() > 0 && a[0] == b[0] {
        lemma_name_before_asymmetric(a.drop_first(), b.drop_first());
    }
}

/// A dictionary has one listing by ascending name.
pub proof fn lemma_listing_unique(
    d: Dictionary,
    s: Seq<(Seq<char>, Obj)>,
    t: Seq<(Seq<char>, Obj)>,
)
    requires
        lists_by_name(d, s),
        lists_by_name(d, t),
    ensures
        s == t,
    decreases s.len(),
{
    if s.len() == 0 {
        if t.len() > 0 {
            assert(d.contains_key(t[0].0));
        }
        assert(s =~= t);
    } else {
        assert(d.contains_key(s[0].0));
        let j = choose|j: int| 0 <= j < t.len() && (#[trigger] t[j]).0 == s[0].0;
        assert(d.contains_key(t[0].0));
        let i = choose|i: int| 0 <= i < s.len() && (#[trigger] s[i]).0 == t[0].0;
        if j > 0 {
            assert(name_before(t[0].0, s[0].0));
            assert(i != 0) by {
                if i == 0 {
                    lemma_name_before_asymmetric(t[0].0, t[0].0);
                }
            }
            assert(name_before(s[0].0, t[0].0));
            lemma_name_before_asymmetric(s[0].0, t[0].0);
        }
        assert(s[0] == t[0]);
        let first = s[0].0;
        lemma_listing_tail(d, s);
        lemma_listing_tail(d, t);
        lemma_listing_unique(d.remove(first), s.drop_first(), t.drop_first());
        assert(s =~= seq![s[0]] + s.drop_first());
        assert(t =~= seq![t[0]] + t.drop_first());
    }
}

/// Without its first entry a listing lists the other entries.
proof fn lemma_listing_tail(d: Dictionary, s: Seq<(Seq<char>, Obj)>)
    requires
        lists_by_name(d, s),
        s.len() > 0,
    ensures
        lists_by_name(d.remove(s[0].0), s.drop_first()),
{
    let rest = s.drop_first();
    let smaller = d.remove(s[0].0);
    assert forall|i: int|
        #![trigger rest[i]]
        0 <= i < rest.len() implies smaller.contains_key(rest[i].0) && smaller[rest[i].0]
        == rest[i].1 by {
        assert(rest[i] == s[i + 1]);
        assert(name_before(s[0].0, s[i + 1].0));
        if s[i + 1].0 == s[0].0 {
            lemma_name_before_asymmetric(s[0].0, s[0].0);
        }
    }
    assert forall|name: Seq<char>| #[trigger] smaller.contains_key(name) implies exists|i: int|
        0 <= i < rest.len() && (#[trigger] rest[i]).0 == name by {
        assert(d.contains_key(name));
        let k = choose|k: int| 0 <= k < s.len() && (#[trigger] s[k]).0 == name;
        assert(rest[k - 1] == s[k]);
    }
    assert forall|i: int, j: int|
        #![trigger rest[i], rest[j]]
        0 <= i < j < rest.len() implies name_before(rest[i].0, rest[j].0) by {
        assert(rest[i] == s[i + 1] && rest[j] == s[j + 1]);
    }
}

/// Of two different names one comes before the other.
proof fn lemma_name_before_total(a: Seq<char>, b: Seq<char>)
    ensures
        a == b || name_before(a, b) || name_before(b, a),
    decreases a.len(),
{
    if a.len() == 0 || b.len() == 0 {
        if a.len() == b.len() {
            assert(a =~= b);
        }
    } else if a[0] == b[0] {
        lemma_name_before_total(a.drop_first(), b.drop_first());
        if a.drop_first() == b.drop_first() {
            assert(a =~= seq![a[0]] + a.drop_first());
            assert(b =~= seq![b[0]] + b.drop_first());
        }
    }
}

/// The order of names is transitive.
proof fn lemma_name_before_transitive(a: Seq<char>, b: Seq<char>, c: Seq<char>)
    requires
        name_before(a, b),
        name_before(b, c),
    ensures
        name_before(a, c),
    decreases a.len(),
{
    if a.len() > 0 && a[0] == b[0] && b[0] == c[0] {
        lemma_name_before_transitive(a.drop_first(), b.drop_first(), c.drop_first());
    }
}

/// Among finitely many names one is the first.
proof fn lemma_first_name(names: Set<Seq<char>>) -> (first: Seq<char>)
    requires
        names.finite(),
        names.len() > 0,
    ensures
        names.contains(first),
        forall|name: Seq<char>| #[trigger]
            names.contains(name) ==> name == first || name_before(first, name),
    decreases names.len(),
{
    let some = names.choose();
    let others = names.remove(some);
    if others.len() == 0 {
        assert forall|name: Seq<char>| #[trigger] names.contains(name) implies name == some by {
            if name != some {
                assert(others.contains(name));
            }
        }
        some
    } else {
        let next = lemma_first_name(others);
        lemma_name_before_total(some, next);
        let first = if name_before(some, next) {
            some
        } else {
            next
        };
        assert forall|name: Seq<char>| #[trigger] names.contains(name) implies name == first
            || name_before(first, name) by {
            if name != some {
                assert(others.contains(name));
                if first == some && name != next {
                    lemma_name_before_transitive(some, next, name);
                }
            }
        }
        first
    }
}

/// A finite dictionary has a listing by ascending name.
pub proof fn lemma_listing_exists(d: Dictionary)
    requires
        d.dom().finite(),
    ensures
        lists_by_name(d, in_name_order(d)),
    decreases d.dom().len(),
{
    if d.dom().len() == 0 {
        assert(lists_by_name(d, seq![]));
    } else {
        let first = lemma_first_name(d.dom());
        let rest = d.remove(first);
        assert(rest.dom() =~= d.dom().remove(first));
        lemma_listing_exists(rest);
        let tail = in_name_order(rest);
        let entries = seq![(first, d[first])] + tail;
        assert forall|i: int, j: int|
            #![trigger entries[i], entries[j]]
            0 <= i < j < entries.len() implies name_before(entries[i].0, entries[j].0) by {
            assert(entries[j] == tail[j - 1]);
            assert(d.dom().contains(tail[j - 1].0));
            if i > 0 {
                assert(entries[i] == tail[i - 1]);
            }
        }
        assert forall|i: int| #![trigger entries[i]] 0 <= i < entries.len() implies d.contains_key(
            entries[i].0,
        ) && d[entries[i].0] == entries[i].1 by {
            if i > 0 {
                assert(entries[i] == tail[i - 1]);
            }
        }
        assert forall|name: Seq<char>| #[trigger] d.contains_key(name) implies exists|i: int|
            0 <= i < entries.len() && (#[trigger] entries[i]).0 == name by {
            if name == first {
                assert(entries[0].0 == name);
            } else {
                assert(rest.contains_key(name));
                let k = choose|k: int| 0 <= k < tail.len() && (#[trigger] tail[k]).0 == name;
                assert(entries[k + 1] == tail[k]);
            }
        }
        assert(lists_by_name(d, entries));
    }
}

} // verus!
