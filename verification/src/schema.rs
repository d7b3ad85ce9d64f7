//! The shapes around the element: an entity is a map of elements, a
//! definition is an entity or an element told apart by its `kind`, and a
//! model is a map of definitions. Each is decoded from the members of a
//! record, matched by name.

use vstd::prelude::*;
use serde_json::Value;
use crate::dict::Dict;
use crate::element::{
    decode_element, decoded_element, lemma_decoded_element_is_well_formed, same_text, Element,
    ElementView,
};
use crate::json::{
    decode_members, decode_text, duplicate_field, duplicate_field_error, members_view,
    missing_field, missing_field_error, unknown_variant, unknown_variant_error, value_as_members,
    value_as_text,
};

verus! {

/// A named collection of elements.
#[derive(Debug)]
pub struct Entity {
    pub elements: Dict<Element>,
}

/// A named entry of a model.
#[derive(Debug)]
pub enum Definition {
    Entity(Entity),
    Type(Element),
}

/// The decoded document: all its definitions by name.
#[derive(Debug)]
pub struct Model {
    pub definitions: Dict<Definition>,
}

/// A definition as the contracts see it.
pub enum DefinitionView {
    Entity(Map<Seq<char>, ElementView>),
    Type(ElementView),
}

impl View for Entity {
    type V = Map<Seq<char>, ElementView>;

    open spec fn view(&self) -> Map<Seq<char>, ElementView> {
        self.elements@.map_values(|el: Element| el@)
    }
}

impl View for Definition {
    type V = DefinitionView;

    open spec fn view(&self) -> DefinitionView {
        match self {
            Definition::Entity(entity) => DefinitionView::Entity(entity@),
            Definition::Type(element) => DefinitionView::Type(element@),
        }
    }
}

impl View for Model {
    type V = Map<Seq<char>, DefinitionView>;

    open spec fn view(&self) -> Map<Seq<char>, DefinitionView> {
        self.definitions@.map_values(|d: Definition| d@)
    }
}

/// The elements of an entity as decoding leaves them: finitely many, each
/// well formed.
pub open spec fn elements_well_formed(elements: Map<Seq<char>, ElementView>) -> bool {
    &&& elements.dom().finite()
    &&& forall|name: Seq<char>| #[trigger]
        elements.contains_key(name) ==> elements[name].well_formed()
}

impl DefinitionView {
    /// A definition as decoding leaves it: its element, or each of its
    /// elements, is well formed.
    pub open spec fn well_formed(self) -> bool {
        match self {
            DefinitionView::Entity(elements) => elements_well_formed(elements),
            DefinitionView::Type(element) => element.well_formed(),
        }
    }
}

/// The definitions of a model as decoding leaves them: finitely many, each
/// well formed.
pub open spec fn definitions_well_formed(definitions: Map<Seq<char>, DefinitionView>) -> bool {
    &&& definitions.dom().finite()
    &&& forall|name: Seq<char>| #[trigger]
        definitions.contains_key(name) ==> definitions[name].well_formed()
}

/// Which shape a definition has.
#[derive(Clone, Copy, Debug, PartialEq, Eq, Structural)]
pub enum Kind {
    Entity,
    Type,
}

/// The kind that a tag names, if it names one.
pub open spec fn kind_of(tag: Seq<char>) -> Option<Kind> {
    if tag == "entity"@ {
        Some(Kind::Entity)
    } else if tag == "type"@ {
        Some(Kind::Type)
    } else {
        None
    }
}

/// The tags that name a kind.
pub open spec fn kind_tags() -> Seq<Seq<char>> {
    seq!["entity"@, "type"@]
}

impl Kind {
    /// The kind that a tag names, if it names one.
    pub fn from_tag(tag: &str) -> (kind: Option<Kind>)
        ensures
            kind == kind_of(tag@),
    {
        if same_text(tag, "entity") {
            Some(Kind::Entity)
        } else if same_text(tag, "type") {
            Some(Kind::Type)
        } else {
            None
        }
    }
}

/// How many members carry a name.
pub open spec fn occurrences(members: Seq<(Seq<char>, Value)>, name: Seq<char>) -> nat
    decreases members.len(),
{
    if members.len() == 0 {
        0
    } else {
        occurrences(members.drop_last(), name) + if members.last().0 == name {
            1nat
        } else {
            0nat
        }
    }
}

/// The place of the first member that carries a name.
pub open spec fn first_named(members: Seq<(Seq<char>, Value)>, name: Seq<char>) -> Option<int>
    decreases members.len(),
{
    if members.len() == 0 {
        None
    } else {
        match first_named(members.drop_last(), name) {
            Some(i) => Some(i),
            None => if members.last().0 == name {
                Some(members.len() - 1)
            } else {
                None
            },
        }
    }
}

/// What a record gives for a field that must occur once: the error for a
/// missing field where no member carries the name; else what the first such
/// member's value decodes to; and where that is no error but a second member
/// carries the name, the error for a duplicate field.
pub open spec fn single_field<T>(
    members: Seq<(Seq<char>, Value)>,
    name: Seq<char>,
    decoded: spec_fn(Value) -> Result<T, serde_json::Error>,
) -> Result<T, serde_json::Error> {
    match first_named(members, name) {
        None => Err(missing_field_error(name)),
        Some(i) => match decoded(members[i].1) {
            Err(e) => Err(e),
            Ok(x) => if occurrences(members, name) > 1 {
                Err(duplicate_field_error(name))
            } else {
                Ok(x)
            },
        },
    }
}

/// What a record's members give as a map from each member's name to what
/// its value decodes to: of two members with one name the later one counts,
/// and the first member that fails gives the error.
pub open spec fn decoded_entries<T>(
    members: Seq<(Seq<char>, Value)>,
    decoded: spec_fn(Value) -> Result<T, serde_json::Error>,
) -> Result<Map<Seq<char>, T>, serde_json::Error>
    decreases members.len(),
{
    if members.len() == 0 {
        Ok(Map::empty())
    } else {
        match decoded_entries(members.drop_last(), decoded) {
            Err(e) => Err(e),
            Ok(m) => match decoded(members.last().1) {
                Err(e) => Err(e),
                Ok(x) => Ok(m.insert(members.last().0, x)),
            },
        }
    }
}

/// What a value gives as a map of entries: it must be a map itself.
pub open spec fn decoded_map<T>(
    v: Value,
    decoded: spec_fn(Value) -> Result<T, serde_json::Error>,
) -> Result<Map<Seq<char>, T>, serde_json::Error> {
    match value_as_members(v) {
        Err(e) => Err(e),
        Ok(members) => decoded_entries(members, decoded),
    }
}

/// What a value gives as an element: it must be a map, whose members are the
/// element's record.
pub open spec fn element_of_value(v: Value) -> Result<ElementView, serde_json::Error> {
    match value_as_members(v) {
        Err(e) => Err(e),
        Ok(members) => decoded_element(members),
    }
}

/// What a value gives as a kind: it must be a string that names one.
pub open spec fn kind_of_value(v: Value) -> Result<Kind, serde_json::Error> {
    match value_as_text(v) {
        Err(e) => Err(e),
        Ok(tag) => match kind_of(tag) {
            Some(kind) => Ok(kind),
            None => Err(unknown_variant_error(tag, kind_tags())),
        },
    }
}

/// What decoding an entity record gives: the elements under `elements`.
pub open spec fn decoded_entity(members: Seq<(Seq<char>, Value)>) -> Result<
    Map<Seq<char>, ElementView>,
    serde_json::Error,
> {
    single_field(
        members,
        "elements"@,
        |v: Value| decoded_map(v, |x: Value| element_of_value(x)),
    )
}

/// What decoding a definition record gives: the kind under `kind` decides
/// whether the same record is read as an entity or as an element.
pub open spec fn decoded_definition(members: Seq<(Seq<char>, Value)>) -> Result<
    DefinitionView,
    serde_json::Error,
> {
    match single_field(members, "kind"@, |v: Value| kind_of_value(v)) {
        Err(e) => Err(e),
        Ok(Kind::Entity) => match decoded_entity(members) {
            Err(e) => Err(e),
            Ok(elements) => Ok(DefinitionView::Entity(elements)),
        },
        Ok(Kind::Type) => match decoded_element(members) {
            Err(e) => Err(e),
            Ok(element) => Ok(DefinitionView::Type(element)),
        },
    }
}

/// What a value gives as a definition: it must be a map, whose members are
/// the definition's record.
pub open spec fn definition_of_value(v: Value) -> Result<DefinitionView, serde_json::Error> {
    match value_as_members(v) {
        Err(e) => Err(e),
        Ok(members) => decoded_definition(members),
    }
}

/// What decoding a model record gives: the definitions under `definitions`.
pub open spec fn decoded_model(members: Seq<(Seq<char>, Value)>) -> Result<
    Map<Seq<char>, DefinitionView>,
    serde_json::Error,
> {
    single_field(
        members,
        "definitions"@,
        |v: Value| decoded_map(v, |x: Value| definition_of_value(x)),
    )
}

/// What a value gives as a model: it must be a map, whose members are the
/// model's record.
pub open spec fn model_of_value(v: Value) -> Result<
    Map<Seq<char>, DefinitionView>,
    serde_json::Error,
> {
    match value_as_members(v) {
        Err(e) => Err(e),
        Ok(members) => decoded_model(members),
    }
}

/// Where a name occurs among the members: the place of its first member, and
/// whether a second member carries it.
fn locate(members: &Vec<(String, Value)>, name: &str) -> (found: (Option<usize>, bool))
    ensures
        match found.0 {
            Some(i) => first_named(members_view(members@), name@) == Some(i as int)
                && i < members.len() && members[i as int].0@ == name@,
            None => first_named(members_view(members@), name@) is None,
        },
        found.1 == (occurrences(members_view(members@), name@) > 1),
{
    let ghost all = members_view(members@);
    let mut first: Option<usize> = None;
    let mut repeated = false;
    let mut i: usize = 0;
    assert(all.take(0).len() == 0);
    while i < members.len()
        invariant
            i <= members.len(),
            all == members_view(members@),
            match first {
                Some(k) => first_named(all.take(i as int), name@) == Some(k as int) && k < i
                    && members[k as int].0@ == name@,
                None => first_named(all.take(i as int), name@) is None,
            },
            first is None ==> occurrences(all.take(i as int), name@) == 0,
            first is Some ==> occurrences(all.take(i as int), name@) >= 1,
            repeated == (occurrences(all.take(i as int), name@) > 1),
        decreases members.len() - i,
    {
        proof {
            assert(all.take(i + 1).drop_last() == all.take(i as int));
            assert(all.take(i + 1).last().0 == members[i as int].0@);
        }
        if same_text(members[i].0.as_str(), name) {
            if first.is_some() {
                repeated = true;
            } else {
                first = Some(i);
            }
        }
        i += 1;
    }
    assert(all.take(i as int) == all);
    (first, repeated)
}

/// Decodes a value as an element: the value must be a map.
fn element_from_value(v: &Value) -> (r: Result<Element, serde_json::Error>)
    ensures
        match r {
            Ok(el) => element_of_value(*v) == Ok::<ElementView, serde_json::Error>(el@),
            Err(e) => element_of_value(*v) == Err::<ElementView, serde_json::Error>(e),
        },
{
    match decode_members(v) {
        Ok(members) => decode_element(&members),
        Err(e) => Err(e),
    }
}

/// Once an entry has failed, the entries after it change nothing.
proof fn lemma_entry_failure_stays<T>(
    members: Seq<(Seq<char>, Value)>,
    decoded: spec_fn(Value) -> Result<T, serde_json::Error>,
    n: int,
)
    requires
        0 <= n <= members.len(),
        decoded_entries(members.take(n), decoded) is Err,
    ensures
        decoded_entries(members, decoded) == decoded_entries(members.take(n), decoded),
    decreases members.len() - n,
{
    if n < members.len() {
        assert(members.take(n + 1).drop_last() == members.take(n));
        lemma_entry_failure_stays(members, decoded, n + 1);
    } else {
        assert(members.take(n) == members);
    }
}

/// Decodes a value as a map of elements.
fn elements_from_value(v: &Value) -> (r: Result<Dict<Element>, serde_json::Error>)
    ensures
        match r {
            Ok(d) => decoded_map(*v, |x: Value| element_of_value(x)) == Ok::<
                Map<Seq<char>, ElementView>,
                serde_json::Error,
            >(d@.map_values(|el: Element| el@)),
            Err(e) => decoded_map(*v, |x: Value| element_of_value(x)) == Err::<
                Map<Seq<char>, ElementView>,
                serde_json::Error,
            >(e),
        },
{
    let members = match decode_members(v) {
        Ok(members) => members,
        Err(e) => {
            return Err(e);
        },
    };
    let ghost all = members_view(members@);
    let ghost decoded = |x: Value| element_of_value(x);
    let mut out: Dict<Element> = Dict::new();
    let mut i: usize = 0;
    assert(all.take(0).len() == 0);
    assert(out@.map_values(|el: Element| el@) == Map::<Seq<char>, ElementView>::empty());
    while i < members.len()
        invariant
            i <= members.len(),
            all == members_view(members@),
            value_as_members(*v) == Ok::<Seq<(Seq<char>, Value)>, serde_json::Error>(all),
            decoded == (|x: Value| element_of_value(x)),
            decoded_entries(all.take(i as int), decoded) == Ok::<
                Map<Seq<char>, ElementView>,
                serde_json::Error,
            >(out@.map_values(|el: Element| el@)),
        decreases members.len() - i,
    {
        proof {
            assert(all.take(i + 1).drop_last() == all.take(i as int));
            assert(all.take(i + 1).last() == (members[i as int].0@, members[i as int].1));
        }
        match element_from_value(&members[i].1) {
            Ok(el) => {
                let ghost before = out@;
                out.insert(members[i].0.clone(), el);
                assert(out@.map_values(|el: Element| el@) == before.map_values(
                    |el: Element| el@,
                ).insert(members[i as int].0@, el@));
            },
            Err(e) => {
                proof {
                    lemma_entry_failure_stays(all, decoded, i + 1);
                }
                return Err(e);
            },
        }
        i += 1;
    }
    assert(all.take(i as int) == all);
    Ok(out)
}

/// Decodes an entity record from its members.
///
/// The first member named `elements` must hold a map, each of whose values
/// is an element record; a missing `elements`, a second `elements`, and the
/// first element that fails each give their error. Other members are passed
/// over.
pub fn decode_entity(members: &Vec<(String, Value)>) -> (r: Result<Entity, serde_json::Error>)
    ensures
        match r {
            Ok(entity) => decoded_entity(members_view(members@)) == Ok::<
                Map<Seq<char>, ElementView>,
                serde_json::Error,
            >(entity@),
            Err(e) => decoded_entity(members_view(members@)) == Err::<
                Map<Seq<char>, ElementView>,
                serde_json::Error,
            >(e),
        },
        r matches Ok(entity) ==> elements_well_formed(entity@),
{
    proof {
        lemma_decoded_entity_is_well_formed(members_view(members@));
    }
    let (first, repeated) = locate(members, "elements");
    match first {
        None => Err(missing_field("elements")),
        Some(i) => {
            assert(members_view(members@)[i as int].1 == members[i as int].1);
            match elements_from_value(&members[i].1) {
                Err(e) => Err(e),
                Ok(elements) => {
                    if repeated {
                        Err(duplicate_field("elements"))
                    } else {
                        Ok(Entity { elements })
                    }
                },
            }
        },
    }
}

/// Decodes a value as a kind: the value must be a string that names one.
fn kind_from_value(v: &Value) -> (r: Result<Kind, serde_json::Error>)
    ensures
        r == kind_of_value(*v),
{
    match decode_text(v) {
        Err(e) => Err(e),
        Ok(tag) => match Kind::from_tag(tag.as_str()) {
            Some(kind) => Ok(kind),
            None => {
                let expected: &'static [&'static str] = &["entity", "type"];
                assert(expected@.map_values(|s: &'static str| s@) == kind_tags());
                Err(unknown_variant(tag.as_str(), expected))
            },
        },
    }
}

/// Decodes a definition record from its members.
///
/// The first member named `kind` must hold `entity` or `type`; a missing
/// `kind`, a value that is no string, an unknown tag and a second `kind`
/// each give their error. The same members are then read as an entity record
/// or as an element record.
pub fn decode_definition(members: &Vec<(String, Value)>) -> (r: Result<
    Definition,
    serde_json::Error,
>)
    ensures
        match r {
            Ok(definition) => decoded_definition(members_view(members@)) == Ok::<
                DefinitionView,
                serde_json::Error,
            >(definition@),
            Err(e) => decoded_definition(members_view(members@)) == Err::<
                DefinitionView,
                serde_json::Error,
            >(e),
        },
        r matches Ok(definition) ==> definition@.well_formed(),
{
    proof {
        lemma_decoded_definition_is_well_formed(members_view(members@));
    }
    let (first, repeated) = locate(members, "kind");
    let kind = match first {
        None => {
            return Err(missing_field("kind"));
        },
        Some(i) => {
            assert(members_view(members@)[i as int].1 == members[i as int].1);
            match kind_from_value(&members[i].1) {
                Err(e) => {
                    return Err(e);
                },
                Ok(kind) => {
                    if repeated {
                        return Err(duplicate_field("kind"));
                    }
                    kind
                },
            }
        },
    };
    match kind {
        Kind::Entity => match decode_entity(members) {
            Ok(entity) => Ok(Definition::Entity(entity)),
            Err(e) => Err(e),
        },
        Kind::Type => match decode_element(members) {
            Ok(element) => Ok(Definition::Type(element)),
            Err(e) => Err(e),
        },
    }
}

/// Decodes a value as a definition: the value must be a map.
fn definition_from_value(v: &Value) -> (r: Result<Definition, serde_json::Error>)
    ensures
        match r {
            Ok(d) => definition_of_value(*v) == Ok::<DefinitionView, serde_json::Error>(d@),
            Err(e) => definition_of_value(*v) == Err::<DefinitionView, serde_json::Error>(e),
        },
{
    match decode_members(v) {
        Ok(members) => decode_definition(&members),
        Err(e) => Err(e),
    }
}

/// Decodes a value as a map of definitions.
fn definitions_from_value(v: &Value) -> (r: Result<Dict<Definition>, serde_json::Error>)
    ensures
        match r {
            Ok(d) => decoded_map(*v, |x: Value| definition_of_value(x)) == Ok::<
                Map<Seq<char>, DefinitionView>,
                serde_json::Error,
            >(d@.map_values(|d: Definition| d@)),
            Err(e) => decoded_map(*v, |x: Value| definition_of_value(x)) == Err::<
                Map<Seq<char>, DefinitionView>,
                serde_json::Error,
            >(e),
        },
{
    let members = match decode_members(v) {
        Ok(members) => members,
        Err(e) => {
            return Err(e);
        },
    };
    let ghost all = members_view(members@);
    let ghost decoded = |x: Value| definition_of_value(x);
    let mut out: Dict<Definition> = Dict::new();
    let mut i: usize = 0;
    assert(all.take(0).len() == 0);
    assert(out@.map_values(|d: Definition| d@) == Map::<Seq<char>, DefinitionView>::empty());
    while i < members.len()
        invariant
            i <= members.len(),
            all == members_view(members@),
            value_as_members(*v) == Ok::<Seq<(Seq<char>, Value)>, serde_json::Error>(all),
            decoded == (|x: Value| definition_of_value(x)),
            decoded_entries(all.take(i as int), decoded) == Ok::<
                Map<Seq<char>, DefinitionView>,
                serde_json::Error,
            >(out@.map_values(|d: Definition| d@)),
        decreases members.len() - i,
    {
        proof {
            assert(all.take(i + 1).drop_last() == all.take(i as int));
            assert(all.take(i + 1).last() == (members[i as int].0@, members[i as int].1));
        }
        match definition_from_value(&members[i].1) {
            Ok(definition) => {
                let ghost before = out@;
                out.insert(members[i].0.clone(), definition);
                assert(out@.map_values(|d: Definition| d@) == before.map_values(
                    |d: Definition| d@,
                ).insert(members[i as int].0@, definition@));
            },
            Err(e) => {
                proof {
                    lemma_entry_failure_stays(all, decoded, i + 1);
                }
                return Err(e);
            },
        }
        i += 1;
    }
    assert(all.take(i as int) == all);
    Ok(out)
}

/// Decodes a model record from its members.
///
/// The first member named `definitions` must hold a map, each of whose
/// values is a definition record; a missing `definitions`, a second
/// `definitions`, and the first definition that fails each give their error.
/// Other members are passed over.
pub fn decode_model(members: &Vec<(String, Value)>) -> (r: Result<Model, serde_json::Error>)
    ensures
        match r {
            Ok(model) => decoded_model(members_view(members@)) == Ok::<
                Map<Seq<char>, DefinitionView>,
                serde_json::Error,
            >(model@),
            Err(e) => decoded_model(members_view(members@)) == Err::<
                Map<Seq<char>, DefinitionView>,
                serde_json::Error,
            >(e),
        },
        r matches Ok(model) ==> definitions_well_formed(model@),
{
    proof {
        lemma_decoded_model_is_well_formed(members_view(members@));
    }
    let (first, repeated) = locate(members, "definitions");
    match first {
        None => Err(missing_field("definitions")),
        Some(i) => {
            assert(members_view(members@)[i as int].1 == members[i as int].1);
            match definitions_from_value(&members[i].1) {
                Err(e) => Err(e),
                Ok(definitions) => {
                    if repeated {
                        Err(duplicate_field("definitions"))
                    } else {
                        Ok(Model { definitions })
                    }
                },
            }
        },
    }
}

/// Decodes a whole document, given as one value, as a model: the value must
/// be a map, whose members are the model's record.
pub fn decode_document(doc: &Value) -> (r: Result<Model, serde_json::Error>)
    ensures
        match r {
            Ok(model) => model_of_value(*doc) == Ok::<
                Map<Seq<char>, DefinitionView>,
                serde_json::Error,
            >(model@),
            Err(e) => model_of_value(*doc) == Err::<
                Map<Seq<char>, DefinitionView>,
                serde_json::Error,
            >(e),
        },
        r matches Ok(model) ==> definitions_well_formed(model@),
{
    match decode_members(doc) {
        Ok(members) => decode_model(&members),
        Err(e) => Err(e),
    }
}

/// Where every value that decodes gives something good, every entry of the
/// map that a record's members give is good, and the entries are finitely
/// many.
pub proof fn lemma_entries_are_good<T>(
    members: Seq<(Seq<char>, Value)>,
    decoded: spec_fn(Value) -> Result<T, serde_json::Error>,
    good: spec_fn(T) -> bool,
)
    requires
        forall|v: Value| #[trigger] decoded(v) is Ok ==> good(decoded(v)->Ok_0),
    ensures
        decoded_entries(members, decoded) matches Ok(m) ==> m.dom().finite() && forall|
            name: Seq<char>,
        | #[trigger] m.contains_key(name) ==> good(m[name]),
    decreases members.len(),
{
    if members.len() > 0 {
        lemma_entries_are_good(members.drop_last(), decoded, good);
    }
}

/// An entity that decoding gives has only well-formed elements.
pub proof fn lemma_decoded_entity_is_well_formed(members: Seq<(Seq<char>, Value)>)
    ensures
        decoded_entity(members) matches Ok(elements) ==> elements_well_formed(elements),
{
    let decoded = |x: Value| element_of_value(x);
    assert forall|v: Value| #[trigger] decoded(v) is Ok implies decoded(v)->Ok_0.well_formed() by {
        lemma_decoded_element_is_well_formed(value_as_members(v)->Ok_0);
    }
    match first_named(members, "elements"@) {
        Some(i) => {
            match value_as_members(members[i].1) {
                Ok(entries) => {
                    lemma_entries_are_good(entries, decoded, |el: ElementView| el.well_formed());
                },
                Err(_) => {},
            }
        },
        None => {},
    }
}

/// A definition that decoding gives is well formed.
pub proof fn lemma_decoded_definition_is_well_formed(members: Seq<(Seq<char>, Value)>)
    ensures
        decoded_definition(members) matches Ok(definition) ==> definition.well_formed(),
{
    lemma_decoded_entity_is_well_formed(members);
    lemma_decoded_element_is_well_formed(members);
}

/// A model that decoding gives has only well-formed definitions.
pub proof fn lemma_decoded_model_is_well_formed(members: Seq<(Seq<char>, Value)>)
    ensures
        decoded_model(members) matches Ok(definitions) ==> definitions_well_formed(definitions),
{
    let decoded = |x: Value| definition_of_value(x);
    assert forall|v: Value| #[trigger] decoded(v) is Ok implies decoded(v)->Ok_0.well_formed() by {
        lemma_decoded_definition_is_well_formed(value_as_members(v)->Ok_0);
    }
    match first_named(members, "definitions"@) {
        Some(i) => {
            match value_as_members(members[i].1) {
                Ok(entries) => {
                    lemma_entries_are_good(
                        entries,
                        decoded,
                        |d: DefinitionView| d.well_formed(),
                    );
                },
                Err(_) => {},
            }
        },
        None => {},
    }
}

/// The first member that carries a name is the one before which no member
/// carries it.
pub proof fn lemma_first_named(members: Seq<(Seq<char>, Value)>, name: Seq<char>, i: int)
    requires
        0 <= i < members.len(),
        members[i].0 == name,
        forall|j: int| 0 <= j < i ==> members[j].0 != name,
    ensures
        first_named(members, name) == Some(i),
    decreases members.len(),
{
    let front = members.drop_last();
    if i < members.len() - 1 {
        assert(front[i] == members[i]);
        assert forall|j: int| 0 <= j < i implies front[j].0 != name by {
            assert(front[j] == members[j]);
        }
        lemma_first_named(front, name, i);
    } else {
        lemma_absent_name(front, name);
    }
}

/// A name that no member carries has no first member.
pub proof fn lemma_absent_name(members: Seq<(Seq<char>, Value)>, name: Seq<char>)
    requires
        forall|j: int| 0 <= j < members.len() ==> members[j].0 != name,
    ensures
        first_named(members, name) is None,
        occurrences(members, name) == 0,
    decreases members.len(),
{
    if members.len() > 0 {
        let front = members.drop_last();
        assert forall|j: int| 0 <= j < front.len() implies front[j].0 != name by {
            assert(front[j] == members[j]);
        }
        assert(members[members.len() - 1].0 != name);
        lemma_absent_name(front, name);
    }
}

/// Two members that carry a name make the name occur more than once.
pub proof fn lemma_repeated_name(
    members: Seq<(Seq<char>, Value)>,
    name: Seq<char>,
    i: int,
    j: int,
)
    requires
        0 <= i < j < members.len(),
        members[i].0 == name,
        members[j].0 == name,
    ensures
        occurrences(members, name) > 1,
    decreases members.len(),
{
    let front = members.drop_last();
    if j < members.len() - 1 {
        assert(front[i] == members[i]);
        assert(front[j] == members[j]);
        lemma_repeated_name(front, name, i, j);
    } else {
        assert(front[i] == members[i]);
        lemma_present_name(front, name, i);
    }
}

/// A member that carries a name makes the name occur.
pub proof fn lemma_present_name(members: Seq<(Seq<char>, Value)>, name: Seq<char>, i: int)
    requires
        0 <= i < members.len(),
        members[i].0 == name,
    ensures
        occurrences(members, name) > 0,
        first_named(members, name) is Some,
    decreases members.len(),
{
    let front = members.drop_last();
    if i < members.len() - 1 {
        assert(front[i] == members[i]);
        lemma_present_name(front, name, i);
    }
}

/// A name that exactly one member carries occurs once.
pub proof fn lemma_single_name(members: Seq<(Seq<char>, Value)>, name: Seq<char>, i: int)
    requires
        0 <= i < members.len(),
        members[i].0 == name,
        forall|j: int| 0 <= j < members.len() && j != i ==> members[j].0 != name,
    ensures
        occurrences(members, name) == 1,
        first_named(members, name) == Some(i),
    decreases members.len(),
{
    lemma_first_named(members, name, i);
    let front = members.drop_last();
    if i < members.len() - 1 {
        assert(front[i] == members[i]);
        assert forall|j: int| 0 <= j < front.len() && j != i implies front[j].0 != name by {
            assert(front[j] == members[j]);
        }
        assert(members[members.len() - 1].0 != name);
        lemma_single_name(front, name, i);
    } else {
        assert forall|j: int| 0 <= j < front.len() implies front[j].0 != name by {
            assert(front[j] == members[j]);
        }
        lemma_absent_name(front, name);
    }
}

/// A definition record whose first `kind` holds a string that names no kind
/// is refused, with the error for an unknown variant.
pub proof fn lemma_unknown_kind_is_refused(
    members: Seq<(Seq<char>, Value)>,
    i: int,
    tag: Seq<char>,
)
    requires
        0 <= i < members.len(),
        members[i].0 == "kind"@,
        forall|j: int| 0 <= j < i ==> members[j].0 != "kind"@,
        value_as_text(members[i].1) == Ok::<Seq<char>, serde_json::Error>(tag),
        tag != "entity"@,
        tag != "type"@,
    ensures
        decoded_definition(members) == Err::<DefinitionView, serde_json::Error>(
            unknown_variant_error(tag, kind_tags()),
        ),
{
    lemma_first_named(members, "kind"@, i);
}

} // verus!
