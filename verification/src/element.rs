//! The element record: a type, a key flag, and annotations whose names
//! start with `@`. Decoding walks the record's members in order and sorts
//! each by its name.

use vstd::prelude::*;
use serde_json::Value;
use crate::dict::Dict;
use crate::json::{
    decode_flag, decode_text, members_view, missing_field, missing_field_error, value_as_flag,
    value_as_text,
};

verus! {

/// A named field of an entity.
#[derive(Debug)]
pub struct Element {
    pub key: bool,
    pub element_type: String,
    pub annotations: Dict<Value>,
}

/// An element as the contracts see it.
pub struct ElementView {
    pub key: bool,
    pub element_type: Seq<char>,
    pub annotations: Map<Seq<char>, Value>,
}

impl View for Element {
    type V = ElementView;

    open spec fn view(&self) -> ElementView {
        ElementView {
            key: self.key,
            element_type: self.element_type@,
            annotations: self.annotations@,
        }
    }
}

impl ElementView {
    /// An element as decoding leaves it: its type is not empty, and each of
    /// its finitely many annotations stands under a name that starts with
    /// `@`.
    pub open spec fn well_formed(self) -> bool {
        &&& self.element_type.len() > 0
        &&& self.annotations.dom().finite()
        &&& forall|name: Seq<char>| #[trigger]
            self.annotations.contains_key(name) ==> name.len() > 0 && name[0] == '@'
    }
}

/// Where a member of an element record goes.
#[derive(Clone, Copy, Debug, PartialEq, Eq, Structural)]
pub enum Slot {
    /// Into the annotations, under its full name.
    Annotation,
    /// Into the element's type.
    Type,
    /// Into the element's key flag.
    Key,
    /// Nowhere: the member is passed over.
    Other,
}

/// The slot that a member's name selects. A name that starts with `@` is an
/// annotation, whatever follows.
pub open spec fn slot_of(name: Seq<char>) -> Slot {
    if name.len() > 0 && name[0] == '@' {
        Slot::Annotation
    } else if name == "type"@ {
        Slot::Type
    } else if name == "key"@ {
        Slot::Key
    } else {
        Slot::Other
    }
}

/// The element before any member is read.
pub open spec fn blank() -> ElementView {
    ElementView { key: false, element_type: Seq::empty(), annotations: Map::empty() }
}

/// The element after one more member, or the error that the member's value
/// gives when it cannot be decoded for its slot.
pub open spec fn absorb(el: ElementView, member: (Seq<char>, Value)) -> Result<
    ElementView,
    serde_json::Error,
> {
    match slot_of(member.0) {
        Slot::Annotation => Ok(
            ElementView { annotations: el.annotations.insert(member.0, member.1), ..el },
        ),
        Slot::Type => match value_as_text(member.1) {
            Ok(text) => Ok(ElementView { element_type: text, ..el }),
            Err(e) => Err(e),
        },
        Slot::Key => match value_as_flag(member.1) {
            Ok(flag) => Ok(ElementView { key: flag, ..el }),
            Err(e) => Err(e),
        },
        Slot::Other => Ok(el),
    }
}

/// The element after all members, read in order, or the error of the first
/// member that fails.
pub open spec fn absorb_all(members: Seq<(Seq<char>, Value)>) -> Result<
    ElementView,
    serde_json::Error,
>
    decreases members.len(),
{
    if members.len() == 0 {
        Ok(blank())
    } else {
        match absorb_all(members.drop_last()) {
            Ok(el) => absorb(el, members.last()),
            Err(e) => Err(e),
        }
    }
}

/// What decoding an element record gives: the element after all members,
/// unless its type is still empty.
pub open spec fn decoded_element(members: Seq<(Seq<char>, Value)>) -> Result<
    ElementView,
    serde_json::Error,
> {
    match absorb_all(members) {
        Ok(el) => if el.element_type.len() == 0 {
            Err(missing_field_error("type"@))
        } else {
            Ok(el)
        },
        Err(e) => Err(e),
    }
}

/// Whether two texts hold the same characters.
pub(crate) fn same_text(a: &str, b: &str) -> (same: bool)
    ensures
        same == (a@ == b@),
{
    a.to_owned() == b.to_owned()
}

/// The slot of a member's name.
pub fn classify(name: &str) -> (slot: Slot)
    ensures
        slot == slot_of(name@),
{
    if !name.is_empty() && name.get_char(0) == '@' {
        Slot::Annotation
    } else if same_text(name, "type") {
        Slot::Type
    } else if same_text(name, "key") {
        Slot::Key
    } else {
        Slot::Other
    }
}

/// Once a member has failed, the members after it change nothing.
pub proof fn lemma_failure_stays(members: Seq<(Seq<char>, Value)>, n: int)
    requires
        0 <= n <= members.len(),
        absorb_all(members.take(n)) is Err,
    ensures
        absorb_all(members) == absorb_all(members.take(n)),
    decreases members.len() - n,
{
    if n < members.len() {
        assert(members.take(n + 1).drop_last() == members.take(n));
        lemma_failure_stays(members, n + 1);
    } else {
        assert(members.take(n) == members);
    }
}

/// The annotations that a record's members give are finitely many and all
/// stand under names that start with `@`; an element that decoding gives is
/// well formed.
pub proof fn lemma_decoded_element_is_well_formed(members: Seq<(Seq<char>, Value)>)
    ensures
        absorb_all(members) matches Ok(el) ==> el.annotations.dom().finite() && forall|
            name: Seq<char>,
        | #[trigger]
            el.annotations.contains_key(name) ==> name.len() > 0 && name[0] == '@',
        decoded_element(members) matches Ok(el) ==> el.well_formed(),
    decreases members.len(),
{
    if members.len() > 0 {
        lemma_decoded_element_is_well_formed(members.drop_last());
    }
}

/// Decodes an element record from its members, read in order.
///
/// A member whose name starts with `@` becomes an annotation under that
/// name, a later one replacing an earlier one of the same name. The value of
/// `type` is decoded as a string and the value of `key` as a boolean; where
/// one of these fails, its error is returned. Other members are passed over.
/// An element whose type is empty at the end is refused as lacking `type`.
pub fn decode_element(members: &Vec<(String, Value)>) -> (r: Result<Element, serde_json::Error>)
    ensures
        match r {
            Ok(el) => decoded_element(members_view(members@)) == Ok::<
                ElementView,
                serde_json::Error,
            >(el@),
            Err(e) => decoded_element(members_view(members@)) == Err::<
                ElementView,
                serde_json::Error,
            >(e),
        },
        r matches Ok(el) ==> el@.well_formed(),
{
    let ghost all = members_view(members@);
    proof {
        lemma_decoded_element_is_well_formed(all);
    }
    let mut key = false;
    let mut element_type = String::new();
    let mut annotations: Dict<Value> = Dict::new();
    let mut i: usize = 0;
    assert(all.take(0).len() == 0);
    while i < members.len()
        invariant
            i <= members.len(),
            all == members_view(members@),
            absorb_all(all.take(i as int)) == Ok::<ElementView, serde_json::Error>(
                ElementView { key, element_type: element_type@, annotations: annotations@ },
            ),
        decreases members.len() - i,
    {
        let name = members[i].0.as_str();
        let value = &members[i].1;
        proof {
            assert(all.take(i + 1).drop_last() == all.take(i as int));
            assert(all.take(i + 1).last() == (name@, *value));
        }
        match classify(name) {
            Slot::Annotation => {
                annotations.insert(name.to_owned(), value.clone());
            },
            Slot::Type => {
                match decode_text(value) {
                    Ok(text) => {
                        element_type = text;
                    },
                    Err(e) => {
                        proof {
                            lemma_failure_stays(all, i + 1);
                        }
                        return Err(e);
                    },
                }
            },
            Slot::Key => {
                match decode_flag(value) {
                    Ok(flag) => {
                        key = flag;
                    },
                    Err(e) => {
                        proof {
                            lemma_failure_stays(all, i + 1);
                        }
                        return Err(e);
                    },
                }
            },
            Slot::Other => {},
        }
        i += 1;
    }
    assert(all.take(i as int) == all);
    if element_type.as_str().is_empty() {
        return Err(missing_field("type"));
    }
    Ok(Element { key, element_type, annotations })
}

/// The value of every `type` member decodes as a string, and that of every
/// `key` member as a boolean.
pub open spec fn values_decode(members: Seq<(Seq<char>, Value)>) -> bool {
    forall|i: int|
        0 <= i < members.len() ==> match #[trigger] slot_of(members[i].0) {
            Slot::Type => value_as_text(members[i].1) is Ok,
            Slot::Key => value_as_flag(members[i].1) is Ok,
            _ => true,
        }
}

/// The names `type` and `key` select their own slots: neither starts with
/// `@`, and they differ.
pub proof fn lemma_fixed_names()
    ensures
        slot_of("type"@) == Slot::Type,
        slot_of("key"@) == Slot::Key,
        forall|name: Seq<char>| #[trigger] slot_of(name) == Slot::Type <==> name == "type"@,
        forall|name: Seq<char>| #[trigger] slot_of(name) == Slot::Key <==> name == "key"@,
{
    reveal_strlit("type");
    reveal_strlit("key");
    assert("type"@[0] == 't');
    assert("key"@[0] == 'k');
    assert("type"@.len() != "key"@.len());
}

/// Members whose values all decode give an element.
pub proof fn lemma_decodable_members_absorb(members: Seq<(Seq<char>, Value)>)
    requires
        values_decode(members),
    ensures
        absorb_all(members) is Ok,
    decreases members.len(),
{
    if members.len() > 0 {
        let front = members.drop_last();
        assert forall|i: int| 0 <= i < front.len() implies match #[trigger] slot_of(front[i].0) {
            Slot::Type => value_as_text(front[i].1) is Ok,
            Slot::Key => value_as_flag(front[i].1) is Ok,
            _ => true,
        } by {
            assert(front[i] == members[i]);
            let _ = slot_of(members[i].0);
        }
        lemma_decodable_members_absorb(front);
        let _ = slot_of(members[members.len() - 1].0);
    }
}

/// Where the members give an element, its type is the text of the last
/// `type` member.
pub proof fn lemma_type_is_last_type_member(members: Seq<(Seq<char>, Value)>, i: int)
    requires
        absorb_all(members) is Ok,
        0 <= i < members.len(),
        members[i].0 == "type"@,
        forall|j: int| i < j < members.len() ==> members[j].0 != "type"@,
    ensures
        value_as_text(members[i].1) == Ok::<Seq<char>, serde_json::Error>(
            absorb_all(members)->Ok_0.element_type,
        ),
    decreases members.len(),
{
    lemma_fixed_names();
    let front = members.drop_last();
    if i < members.len() - 1 {
        assert(front[i] == members[i]);
        assert(members[members.len() - 1].0 != "type"@);
        lemma_type_is_last_type_member(front, i);
    }
}

/// Where the members give an element and none of them is named `type`, the
/// element's type is empty.
pub proof fn lemma_type_empty_without_type_member(members: Seq<(Seq<char>, Value)>)
    requires
        absorb_all(members) is Ok,
        forall|i: int| 0 <= i < members.len() ==> members[i].0 != "type"@,
    ensures
        absorb_all(members)->Ok_0.element_type.len() == 0,
    decreases members.len(),
{
    lemma_fixed_names();
    if members.len() > 0 {
        let front = members.drop_last();
        assert forall|i: int| 0 <= i < front.len() implies front[i].0 != "type"@ by {
            assert(front[i] == members[i]);
        }
        assert(members[members.len() - 1].0 != "type"@);
        lemma_type_empty_without_type_member(front);
    }
}

/// A record in which every fixed member's value decodes is refused as
/// lacking `type` when no member is named `type`, and also when the last
/// member named `type` holds the empty string.
pub proof fn lemma_type_is_required(members: Seq<(Seq<char>, Value)>)
    requires
        values_decode(members),
        (forall|i: int| 0 <= i < members.len() ==> members[i].0 != "type"@) || (exists|i: int|
            0 <= i < members.len() && #[trigger] members[i].0 == "type"@ && value_as_text(
                members[i].1,
            ) == Ok::<Seq<char>, serde_json::Error>(Seq::empty()) && forall|j: int|
                i < j < members.len() ==> members[j].0 != "type"@),
    ensures
        decoded_element(members) == Err::<ElementView, serde_json::Error>(
            missing_field_error("type"@),
        ),
{
    lemma_decodable_members_absorb(members);
    if forall|i: int| 0 <= i < members.len() ==> members[i].0 != "type"@ {
        lemma_type_empty_without_type_member(members);
    } else {
        let i = choose|i: int|
            0 <= i < members.len() && #[trigger] members[i].0 == "type"@ && value_as_text(
                members[i].1,
            ) == Ok::<Seq<char>, serde_json::Error>(Seq::empty()) && forall|j: int|
                i < j < members.len() ==> members[j].0 != "type"@;
        lemma_type_is_last_type_member(members, i);
    }
}

/// A record in which every fixed member's value decodes, and whose last
/// member named `type` holds a string that is not empty, gives an element of
/// that type.
pub proof fn lemma_element_is_decoded(members: Seq<(Seq<char>, Value)>, i: int, text: Seq<char>)
    requires
        values_decode(members),
        0 <= i < members.len(),
        members[i].0 == "type"@,
        forall|j: int| i < j < members.len() ==> members[j].0 != "type"@,
        value_as_text(members[i].1) == Ok::<Seq<char>, serde_json::Error>(text),
        text.len() > 0,
    ensures
        decoded_element(members) is Ok,
        decoded_element(members)->Ok_0.element_type == text,
{
    lemma_decodable_members_absorb(members);
    lemma_type_is_last_type_member(members, i);
}

/// The first member whose value fails to decode decides the outcome: its
/// error is returned, whatever stands after it.
pub proof fn lemma_first_failure_is_returned(members: Seq<(Seq<char>, Value)>, i: int)
    requires
        0 <= i < members.len(),
        values_decode(members.take(i)),
        absorb(blank(), members[i]) is Err,
    ensures
        decoded_element(members) == Err::<ElementView, serde_json::Error>(
            absorb(blank(), members[i])->Err_0,
        ),
{
    lemma_decodable_members_absorb(members.take(i));
    assert(members.take(i + 1).drop_last() == members.take(i));
    assert(members.take(i + 1).last() == members[i]);
    lemma_failure_stays(members, i + 1);
}

/// Where the members give an element, its key flag is the value of the last
/// `key` member.
pub proof fn lemma_key_is_last_key_member(members: Seq<(Seq<char>, Value)>, i: int)
    requires
        absorb_all(members) is Ok,
        0 <= i < members.len(),
        members[i].0 == "key"@,
        forall|j: int| i < j < members.len() ==> members[j].0 != "key"@,
    ensures
        value_as_flag(members[i].1) == Ok::<bool, serde_json::Error>(
            absorb_all(members)->Ok_0.key,
        ),
    decreases members.len(),
{
    lemma_fixed_names();
    let front = members.drop_last();
    if i < members.len() - 1 {
        assert(front[i] == members[i]);
        assert(members[members.len() - 1].0 != "key"@);
        lemma_key_is_last_key_member(front, i);
    }
}

/// Every annotation of the element that the members give stands under the
/// name of one of the members.
pub proof fn lemma_annotation_has_a_member(members: Seq<(Seq<char>, Value)>, name: Seq<char>)
    requires
        absorb_all(members) is Ok,
        absorb_all(members)->Ok_0.annotations.contains_key(name),
    ensures
        exists|i: int| 0 <= i < members.len() && #[trigger] members[i].0 == name,
    decreases members.len(),
{
    if members.len() > 0 {
        let front = members.drop_last();
        if members.last().0 == name {
            assert(members[members.len() - 1].0 == name);
        } else {
            lemma_annotation_has_a_member(front, name);
            let i = choose|i: int| 0 <= i < front.len() && #[trigger] front[i].0 == name;
            assert(members[i].0 == name);
        }
    }
}

/// An element decoded from a record without a member named `key` is no key.
pub proof fn lemma_key_defaults_to_false(members: Seq<(Seq<char>, Value)>)
    requires
        forall|i: int| 0 <= i < members.len() ==> members[i].0 != "key"@,
        absorb_all(members) is Ok,
    ensures
        !absorb_all(members)->Ok_0.key,
        decoded_element(members) is Ok ==> !decoded_element(members)->Ok_0.key,
    decreases members.len(),
{
    lemma_fixed_names();
    if members.len() > 0 {
        let front = members.drop_last();
        assert forall|i: int| 0 <= i < front.len() implies front[i].0 != "key"@ by {
            assert(front[i] == members[i]);
        }
        assert(members[members.len() - 1].0 != "key"@);
        lemma_key_defaults_to_false(front);
    }
}

/// Every member whose name starts with `@` leaves its name among the
/// annotations of the element that the members give.
pub proof fn lemma_annotation_is_kept(members: Seq<(Seq<char>, Value)>, i: int)
    requires
        absorb_all(members) is Ok,
        0 <= i < members.len(),
        members[i].0.len() > 0,
        members[i].0[0] == '@',
    ensures
        absorb_all(members)->Ok_0.annotations.contains_key(members[i].0),
        decoded_element(members) is Ok ==> decoded_element(members)->Ok_0.annotations.contains_key(
            members[i].0,
        ),
    decreases members.len(),
{
    let front = members.drop_last();
    if i < members.len() - 1 {
        assert(front[i] == members[i]);
        lemma_annotation_is_kept(front, i);
    }
}

/// Under an annotation's name stands the value of the last member of that
/// name, unchanged.
pub proof fn lemma_last_annotation_wins(members: Seq<(Seq<char>, Value)>, i: int)
    requires
        absorb_all(members) is Ok,
        0 <= i < members.len(),
        members[i].0.len() > 0,
        members[i].0[0] == '@',
        forall|j: int| i < j < members.len() ==> members[j].0 != members[i].0,
    ensures
        absorb_all(members)->Ok_0.annotations.contains_key(members[i].0),
        absorb_all(members)->Ok_0.annotations[members[i].0] == members[i].1,
        decoded_element(members) is Ok ==> decoded_element(members)->Ok_0.annotations[members[i].0]
            == members[i].1,
    decreases members.len(),
{
    let front = members.drop_last();
    if i < members.len() - 1 {
        assert(front[i] == members[i]);
        assert(members[members.len() - 1].0 != members[i].0);
        lemma_last_annotation_wins(front, i);
    }
}

/// An annotation touches neither the type nor the key flag: without the
/// member, the record gives the same type, the same flag and the same
/// failure.
pub proof fn lemma_annotation_stands_apart(members: Seq<(Seq<char>, Value)>, i: int)
    requires
        0 <= i < members.len(),
        members[i].0.len() > 0,
        members[i].0[0] == '@',
    ensures
        match (absorb_all(members), absorb_all(members.remove(i))) {
            (Ok(with), Ok(without)) => with.key == without.key && with.element_type
                == without.element_type,
            (Err(e), Err(f)) => e == f,
            _ => false,
        },
    decreases members.len(),
{
    let front = members.drop_last();
    if i < members.len() - 1 {
        assert(front[i] == members[i]);
        lemma_annotation_stands_apart(front, i);
        assert(members.remove(i).drop_last() == front.remove(i));
        assert(members.remove(i).last() == members.last());
    } else {
        assert(members.remove(i) == front);
    }
}

} // verus!
