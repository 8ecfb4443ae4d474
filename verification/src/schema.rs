//! Record declarations and the schemas compiled from them.

use crate::literal::{literal_value, parse_literal};
use std::collections::HashSet;
use vstd::prelude::*;
use vstd::std_specs::hash::*;

verus! {

/// One annotation attached to a field declaration, such as `order(3)`.
#[derive(Debug, Clone)]
pub struct Annotation {
    /// The annotation's path as written.
    pub name: String,
    /// The text between the annotation's parentheses, where it has any.
    pub arguments: Option<String>,
}

/// One field as the record declares it. `T` is whatever the host uses to
/// describe the field's type; the schema carries it along untouched.
#[derive(Debug, Clone)]
pub struct FieldDecl<T> {
    pub name: String,
    pub declared_type: T,
    pub annotations: Vec<Annotation>,
}

/// The shape of the type that a schema is asked for.
#[derive(Debug, Clone, Copy, PartialEq, Eq)]
pub enum TargetShape {
    NamedStruct,
    TupleStruct,
    UnitStruct,
    Enum,
    Union,
}

/// A record as declared: its name, its shape and its fields in the order in
/// which the declaration lists them.
#[derive(Debug, Clone)]
pub struct RecordDecl<T> {
    pub name: String,
    pub shape: TargetShape,
    pub fields: Vec<FieldDecl<T>>,
}

/// One field with the position at which it travels.
#[derive(Debug, Clone)]
pub struct FieldSpec<T> {
    pub name: String,
    pub declared_type: T,
    /// The zero-based index of the field's element in a message.
    pub position: u32,
}

/// A validated schema. Its fields stand in declaration order; beside them it
/// keeps the order in which they arrive on the wire. A value of this type
/// only comes out of [`compile_schema`] and [`derive_order`], so no two of its
/// fields ever share a position.
#[derive(Debug)]
pub struct RecordSchema<T> {
    name: String,
    fields: Vec<FieldSpec<T>>,
    wire: Vec<usize>,
}

/// What a [`RecordSchema`] stands for.
pub struct SchemaView<T> {
    pub name: Seq<char>,
    /// The fields in declaration order; an index into it is a field's slot.
    pub fields: Seq<FieldSpec<T>>,
    /// The slots in the order in which their fields arrive.
    pub wire: Seq<usize>,
}

/// What can go wrong while a schema is compiled.
#[derive(Debug, Clone, PartialEq, Eq)]
pub enum SchemaError {
    /// The target is an enum or a union.
    NotAStruct,
    /// The target is a struct without named fields.
    UnnamedFields,
    /// The named field carries no `order` annotation.
    MissingPosition { field: String },
    /// The named field's `order` annotation does not hold one integer literal
    /// between 0 and `i32::MAX`.
    InvalidPosition { field: String },
    /// Fewer or more fields carry a position than the record declares.
    IncompletePositions,
    /// Two fields claim the same position.
    DuplicatePosition,
}

impl SchemaError {
    /// The text of [`SchemaError::message`].
    pub open spec fn message_text(self) -> Seq<char> {
        match self {
            SchemaError::NotAStruct => "an ordered decoder can only be derived for structs"@,
            SchemaError::UnnamedFields => "an ordered decoder needs a struct with named fields"@,
            SchemaError::MissingPosition { field } => "missing required position annotation on field `"@
                + field@ + "`"@,
            SchemaError::InvalidPosition { field } => "the position annotation on field `"@ + field@
                + "` must hold one integer literal from 0 to 2147483647"@,
            SchemaError::IncompletePositions => "every field must carry a position annotation"@,
            SchemaError::DuplicatePosition => "every field must have a position of its own"@,
        }
    }

    /// Says in words what went wrong.
    pub fn message(&self) -> (r: String)
        ensures
            r@ == self.message_text(),
    {
        match self {
            SchemaError::NotAStruct => String::from_str(
                "an ordered decoder can only be derived for structs",
            ),
            SchemaError::UnnamedFields => String::from_str(
                "an ordered decoder needs a struct with named fields",
            ),
            SchemaError::MissingPosition { field } => {
                let mut text = String::from_str("missing required position annotation on field `");
                text.append(field.as_str());
                text.append("`");
                text
            },
            SchemaError::InvalidPosition { field } => {
                let mut text = String::from_str("the position annotation on field `");
                text.append(field.as_str());
                text.append("` must hold one integer literal from 0 to 2147483647");
                text
            },
            SchemaError::IncompletePositions => String::from_str(
                "every field must carry a position annotation",
            ),
            SchemaError::DuplicatePosition => String::from_str(
                "every field must have a position of its own",
            ),
        }
    }
}

/// Whether `annotation` is the one that assigns a position.
pub open spec fn is_order(annotation: Annotation) -> bool {
    annotation.name@ == "order"@
}

/// The index of the first `order` annotation at or after `from`.
pub open spec fn first_order_from(annotations: Seq<Annotation>, from: int) -> Option<int>
    decreases annotations.len() - from,
{
    if from < 0 || from >= annotations.len() {
        None
    } else if is_order(annotations[from]) {
        Some(from)
    } else {
        first_order_from(annotations, from + 1)
    }
}

/// The position that a literal's value stands for, for the named field: the
/// value itself unless it is negative. Without a value, and with a negative
/// one, the field's position is invalid.
pub open spec fn position_of(field: String, literal: Option<i32>) -> Result<u32, SchemaError> {
    match literal {
        Some(number) => if number < 0 {
            Err(SchemaError::InvalidPosition { field })
        } else {
            Ok(number as u32)
        },
        None => Err(SchemaError::InvalidPosition { field }),
    }
}

/// Turns what was read out of a field's `order` annotation into the field's
/// position: `literal` is the value of the integer literal found there, or
/// `None` where no such literal was found.
pub fn position_from_literal(field: &String, literal: Option<i32>) -> (r: Result<u32, SchemaError>)
    ensures
        r == position_of(*field, literal),
{
    match literal {
        Some(number) => if number < 0 {
            Err(SchemaError::InvalidPosition { field: field.clone() })
        } else {
            Ok(number as u32)
        },
        None => Err(SchemaError::InvalidPosition { field: field.clone() }),
    }
}

/// The annotations named `order`, in the order in which they are written.
pub open spec fn order_annotations(annotations: Seq<Annotation>) -> Seq<Annotation> {
    annotations.filter(|annotation: Annotation| is_order(annotation))
}

/// The text in which a field states its position: the argument list of the
/// first annotation named `order`.
///
/// Without such an annotation the position is missing. The annotation must
/// have an argument list, and a list with a minus sign is invalid as it
/// stands, since a position is never negative.
pub open spec fn position_text<T>(field: FieldDecl<T>) -> Result<Seq<char>, SchemaError> {
    match first_order_from(field.annotations@, 0) {
        None => Err(SchemaError::MissingPosition { field: field.name }),
        Some(i) => match field.annotations[i].arguments {
            None => Err(SchemaError::InvalidPosition { field: field.name }),
            Some(tokens) => if tokens@.contains('-') {
                Err(SchemaError::InvalidPosition { field: field.name })
            } else {
                Ok(tokens@)
            },
        },
    }
}

/// Whether a field's annotations cannot give it a position, whatever is made
/// of their text.
pub open spec fn lacks_position<T>(field: FieldDecl<T>) -> bool {
    position_text(field) is Err
}

/// What reading the position of `field` can give.
///
/// Where the field states its position in no text, the reading is the error
/// that [`position_text`] gives. What a text holds is for the literal parser
/// to say: the reading is then what [`position_of`] makes of some value, or
/// of none: a position up to `i32::MAX`, or that the position is invalid.
pub open spec fn admits_reading<T>(field: FieldDecl<T>, reading: Result<u32, SchemaError>) -> bool {
    match position_text(field) {
        Err(e) => reading == Err::<u32, SchemaError>(e),
        Ok(_) => exists|literal: Option<i32>| reading == #[trigger] position_of(field.name, literal),
    }
}

/// Whether `text` holds a minus sign.
fn holds_minus_sign(text: &str) -> (found: bool)
    ensures
        found == text@.contains('-'),
{
    let len = text.unicode_len();
    let mut i: usize = 0;
    while i < len
        invariant
            i <= len,
            len == text@.len(),
            forall|j: int| 0 <= j < i ==> text@[j] != '-',
        decreases len - i,
    {
        if text.get_char(i) == '-' {
            return true;
        }
        i += 1;
    }
    false
}

/// Finds the text in which a field states its position.
///
/// The first annotation named `order` decides; annotations of other names
/// are passed over, and so is every later one named `order`.
pub fn order_text<T>(field: &FieldDecl<T>) -> (r: Result<&String, SchemaError>)
    ensures
        match r {
            Ok(text) => position_text(*field) == Ok::<Seq<char>, SchemaError>(text@),
            Err(e) => position_text(*field) == Err::<Seq<char>, SchemaError>(e),
        },
{
    let order = String::from_str("order");
    let mut i: usize = 0;
    while i < field.annotations.len()
        invariant
            i <= field.annotations.len(),
            order@ == "order"@,
            first_order_from(field.annotations@, 0) == first_order_from(field.annotations@, i as int),
        decreases field.annotations.len() - i,
    {
        let annotation = &field.annotations[i];
        if annotation.name == order {
            return match &annotation.arguments {
                None => Err(SchemaError::InvalidPosition { field: field.name.clone() }),
                Some(tokens) => if holds_minus_sign(tokens.as_str()) {
                    Err(SchemaError::InvalidPosition { field: field.name.clone() })
                } else {
                    Ok(tokens)
                },
            };
        }
        i += 1;
    }
    Err(SchemaError::MissingPosition { field: field.name.clone() })
}

/// Reads the position out of a field's annotations.
///
/// The text that [`order_text`] finds must be one integer literal from 0 to
/// `i32::MAX`, in any notation that Rust has for integers. It is handed to
/// `syn`, and the result goes by what `syn` makes of it, as
/// [`position_from_literal`] says.
pub fn get_order_from_field<T>(field: &FieldDecl<T>) -> (r: Result<u32, SchemaError>)
    ensures
        admits_reading(*field, r),
{
    match order_text(field) {
        Err(e) => Err(e),
        Ok(text) => {
            let literal = match parse_literal(text.as_str()) {
                Ok(literal) => match literal_value(&literal) {
                    Ok(number) => Some(number),
                    Err(_) => None,
                },
                Err(_) => None,
            };
            position_from_literal(&field.name, literal)
        },
    }
}

/// The positions of `fields`, slot by slot.
pub open spec fn positions<T>(fields: Seq<FieldSpec<T>>) -> Seq<u32> {
    fields.map_values(|field: FieldSpec<T>| field.position)
}

/// No two of `fields` share a position.
pub open spec fn distinct_positions<T>(fields: Seq<FieldSpec<T>>) -> bool {
    forall|a: int, b: int| 0 <= a < b < fields.len() ==> fields[a].position != fields[b].position
}

/// Whether `slot` is among the entries of `wire`.
pub open spec fn occurs(wire: Seq<usize>, slot: int) -> bool {
    exists|k: int| 0 <= k < wire.len() && wire[k] == slot
}

/// `wire` lists every slot of `fields`, by strictly ascending position.
pub open spec fn is_wire_order<T>(fields: Seq<FieldSpec<T>>, wire: Seq<usize>) -> bool {
    &&& wire.len() == fields.len()
    &&& forall|k: int| 0 <= k < wire.len() ==> wire[k] < fields.len()
    &&& forall|k: int, l: int|
        0 <= k < l < wire.len() ==> fields[wire[k] as int].position < fields[wire[l] as int].position
    &&& forall|slot: int| 0 <= slot < fields.len() ==> #[trigger] occurs(wire, slot)
}

impl<T> SchemaView<T> {
    /// The schema's invariant: its wire order sorts its fields by position.
    pub open spec fn wf(self) -> bool {
        is_wire_order(self.fields, self.wire)
    }
}

impl<T> View for RecordSchema<T> {
    type V = SchemaView<T>;

    closed spec fn view(&self) -> SchemaView<T> {
        SchemaView { name: self.name@, fields: self.fields@, wire: self.wire@ }
    }
}

impl<T> RecordSchema<T> {
    #[verifier::type_invariant]
    closed spec fn inv(&self) -> bool {
        is_wire_order(self.fields@, self.wire@)
    }

    /// The record's name.
    pub fn name(&self) -> (r: &String)
        ensures
            r@ == self@.name,
    {
        &self.name
    }

    /// The fields in declaration order.
    pub fn fields(&self) -> (r: &Vec<FieldSpec<T>>)
        ensures
            r@ == self@.fields,
            self@.wf(),
    {
        proof {
            use_type_invariant(self);
        }
        &self.fields
    }

    /// The slots of the fields in the order in which they arrive: by
    /// ascending position.
    pub fn wire_order(&self) -> (r: &Vec<usize>)
        ensures
            r@ == self@.wire,
            self@.wf(),
    {
        proof {
            use_type_invariant(self);
        }
        &self.wire
    }
}

/// The fields of a schema are parts of it: a definition by recursion on a
/// schema may descend into them.
pub proof fn lemma_fields_are_parts<T>(schema: RecordSchema<T>)
    ensures
        decreases_to!(schema => schema@.fields),
{
    broadcast use vstd::std_specs::vec::group_vec_axioms;

    assert(decreases_to!(schema => schema.fields));
    assert(decreases_to!(schema.fields => schema.fields@));
}

/// Fields that have a wire order have pairwise distinct positions.
pub proof fn lemma_wire_order_distinct<T>(fields: Seq<FieldSpec<T>>, wire: Seq<usize>)
    requires
        is_wire_order(fields, wire),
    ensures
        distinct_positions(fields),
{
    assert forall|a: int, b: int| 0 <= a < b < fields.len() implies fields[a].position
        != fields[b].position by {
        assert(occurs(wire, a));
        assert(occurs(wire, b));
        let ka = choose|k: int| 0 <= k < wire.len() && wire[k] == a;
        let kb = choose|k: int| 0 <= k < wire.len() && wire[k] == b;
        if ka < kb {
            assert(fields[wire[ka] as int].position < fields[wire[kb] as int].position);
        } else {
            assert(fields[wire[kb] as int].position < fields[wire[ka] as int].position);
        }
    }
}

/// Why `positioned` cannot be the fields of a record that declares `declared`
/// fields, if anything: a count that does not match, then a position that
/// occurs twice.
pub open spec fn compile_failure<T>(declared: nat, positioned: Seq<FieldSpec<T>>) -> Option<
    SchemaError,
> {
    if positioned.len() != declared {
        Some(SchemaError::IncompletePositions)
    } else if positions(positioned).to_set().len() != declared {
        Some(SchemaError::DuplicatePosition)
    } else {
        None
    }
}

/// Counts the positions that occur among `fields`, each once.
fn count_distinct_positions<T>(fields: &Vec<FieldSpec<T>>) -> (count: usize)
    ensures
        count == positions(fields@).to_set().len(),
{
    broadcast use group_hash_axioms;

    let mut seen: HashSet<u32> = HashSet::new();
    let mut i: usize = 0;
    while i < fields.len()
        invariant
            i <= fields.len(),
            seen@ == positions(fields@).take(i as int).to_set(),
        decreases fields.len() - i,
    {
        seen.insert(fields[i].position);
        proof {
            let all = positions(fields@);
            assert(all.take(i + 1) =~= all.take(i as int).push(fields[i as int].position));
            all.take(i as int).lemma_push_to_set_commute(fields[i as int].position);
        }
        i += 1;
    }
    proof {
        assert(positions(fields@).take(i as int) =~= positions(fields@));
    }
    seen.len()
}

/// `wire` lists the first `upto` slots of `fields`, by strictly ascending
/// position.
spec fn orders_first<T>(fields: Seq<FieldSpec<T>>, wire: Seq<usize>, upto: int) -> bool {
    &&& wire.len() == upto
    &&& forall|k: int| 0 <= k < wire.len() ==> wire[k] < upto
    &&& forall|k: int, l: int|
        0 <= k < l < wire.len() ==> fields[wire[k] as int].position < fields[wire[l] as int].position
    &&& forall|slot: int| 0 <= slot < upto ==> #[trigger] occurs(wire, slot)
}

/// Putting the next slot where its position belongs keeps the order.
proof fn lemma_insert_keeps_order<T>(
    fields: Seq<FieldSpec<T>>,
    before: Seq<usize>,
    at: int,
    slot: usize,
)
    requires
        distinct_positions(fields),
        slot < fields.len(),
        orders_first(fields, before, slot as int),
        0 <= at <= before.len(),
        forall|k: int| 0 <= k < at ==> fields[before[k] as int].position < fields[slot as int].position,
        at < before.len() ==> fields[before[at] as int].position >= fields[slot as int].position,
    ensures
        orders_first(fields, before.insert(at, slot), slot + 1),
{
    let after = before.insert(at, slot);
    before.insert_ensures(at, slot);
    assert forall|k: int| 0 <= k < after.len() implies after[k] < slot + 1 by {
        if k < at {
            assert(after[k] == before[k]);
        } else if k > at {
            assert(after[k] == before[k - 1]);
        }
    }
    assert forall|k: int| at < k < after.len() implies fields[slot as int].position
        < fields[#[trigger] after[k] as int].position by {
        assert(after[k] == before[k - 1]);
        assert(before[k - 1] < slot);
        if k - 1 > at {
            assert(fields[before[at] as int].position < fields[before[k - 1] as int].position);
        }
        assert(before[at] < slot);
    }
    assert forall|k: int, l: int| 0 <= k < l < after.len() implies fields[after[k] as int].position
        < fields[after[l] as int].position by {
        if l < at {
            assert(after[k] == before[k]);
            assert(after[l] == before[l]);
        } else if l == at {
            assert(after[k] == before[k]);
        } else if k == at {
        } else if k < at {
            assert(after[k] == before[k]);
            assert(after[l] == before[l - 1]);
        } else {
            assert(after[k] == before[k - 1]);
            assert(after[l] == before[l - 1]);
        }
    }
    assert forall|t: int| 0 <= t < slot + 1 implies #[trigger] occurs(after, t) by {
        if t == slot {
            assert(after[at] == t);
        } else {
            assert(occurs(before, t));
            let j = choose|j: int| 0 <= j < before.len() && before[j] == t;
            if j < at {
                assert(after[j] == t);
            } else {
                assert(after[j + 1] == t);
            }
        }
    }
}

/// Sorts the slots of `fields` by position.
fn wire_order<T>(fields: &Vec<FieldSpec<T>>) -> (wire: Vec<usize>)
    requires
        distinct_positions(fields@),
    ensures
        is_wire_order(fields@, wire@),
{
    let mut wire: Vec<usize> = Vec::new();
    let mut slot: usize = 0;
    while slot < fields.len()
        invariant
            slot <= fields.len(),
            distinct_positions(fields@),
            orders_first(fields@, wire@, slot as int),
        decreases fields.len() - slot,
    {
        let position = fields[slot].position;
        let mut at: usize = 0;
        while at < wire.len() && fields[wire[at]].position < position
            invariant
                at <= wire.len(),
                slot < fields.len(),
                position == fields[slot as int].position,
                forall|k: int| 0 <= k < wire.len() ==> wire[k] < slot,
                forall|k: int| 0 <= k < at ==> fields[wire[k] as int].position < position,
            decreases wire.len() - at,
        {
            at += 1;
        }
        proof {
            lemma_insert_keeps_order(fields@, wire@, at as int, slot);
        }
        wire.insert(at, slot);
        slot += 1;
    }
    wire
}

/// Compiles the fields that carry a position into a schema for a record that
/// declares `declared` fields.
///
/// Fails with `IncompletePositions` when the counts differ, else with
/// `DuplicatePosition` when fewer distinct positions occur than fields;
/// otherwise the schema holds `positioned` unchanged, in declaration order,
/// with its wire order worked out.
pub fn compile_schema<T>(name: String, declared: usize, positioned: Vec<FieldSpec<T>>) -> (r: Result<
    RecordSchema<T>,
    SchemaError,
>)
    ensures
        match r {
            Ok(schema) => {
                &&& compile_failure(declared as nat, positioned@) is None
                &&& schema@.name == name@
                &&& schema@.fields == positioned@
                &&& schema@.wf()
            },
            Err(e) => compile_failure(declared as nat, positioned@) == Some(e),
        },
{
    if positioned.len() != declared {
        return Err(SchemaError::IncompletePositions);
    }
    if count_distinct_positions(&positioned) != declared {
        return Err(SchemaError::DuplicatePosition);
    }
    proof {
        let all = positions(positioned@);
        all.lemma_no_dup_set_cardinality();
        assert forall|a: int, b: int| 0 <= a < b < positioned.len() implies positioned[a].position
            != positioned[b].position by {
            assert(all[a] == positioned[a].position);
            assert(all[b] == positioned[b].position);
        }
    }
    let wire = wire_order(&positioned);
    Ok(RecordSchema { name, fields: positioned, wire })
}

/// `readings` can be what reading the positions of `fields` gives, field by
/// field.
pub open spec fn admits_readings<T>(
    fields: Seq<FieldDecl<T>>,
    readings: Seq<Result<u32, SchemaError>>,
) -> bool {
    &&& readings.len() == fields.len()
    &&& forall|i: int| 0 <= i < fields.len() ==> admits_reading(fields[i], #[trigger] readings[i])
}

/// The reading at `i` is a refusal, and none comes before it.
pub open spec fn is_first_refusal(readings: Seq<Result<u32, SchemaError>>, i: int) -> bool {
    &&& 0 <= i < readings.len()
    &&& readings[i] is Err
    &&& forall|j: int| 0 <= j < i ==> (#[trigger] readings[j]) is Ok
}

/// The fields of a declaration with the positions read for them, in
/// declaration order; or the error of the first field, in that order, whose
/// reading is a refusal.
pub open spec fn positioned_fields<T>(
    fields: Seq<FieldDecl<T>>,
    readings: Seq<Result<u32, SchemaError>>,
) -> Result<Seq<FieldSpec<T>>, SchemaError> {
    if exists|i: int| is_first_refusal(readings, i) {
        Err(readings[choose|i: int| is_first_refusal(readings, i)]->Err_0)
    } else {
        Ok(
            Seq::new(
                fields.len(),
                |i: int|
                    FieldSpec {
                        name: fields[i].name,
                        declared_type: fields[i].declared_type,
                        position: readings[i]->Ok_0,
                    },
            ),
        )
    }
}

/// The fields of the schema that a declaration compiles to, given what was
/// read for each field, or the reason why it compiles to none: an
/// unsupported shape, then the first field without a position, then a
/// failure of [`compile_failure`].
pub open spec fn derived_fields<T>(
    input: RecordDecl<T>,
    readings: Seq<Result<u32, SchemaError>>,
) -> Result<Seq<FieldSpec<T>>, SchemaError> {
    match input.shape {
        TargetShape::Enum | TargetShape::Union => Err(SchemaError::NotAStruct),
        TargetShape::TupleStruct | TargetShape::UnitStruct => Err(SchemaError::UnnamedFields),
        TargetShape::NamedStruct => match positioned_fields(input.fields@, readings) {
            Err(e) => Err(e),
            Ok(specs) => match compile_failure(input.fields@.len(), specs) {
                Some(e) => Err(e),
                None => Ok(specs),
            },
        },
    }
}

/// Whether `r` is what a declaration compiles to, given what was read for
/// each of its fields.
pub open spec fn is_derivation<T>(
    input: RecordDecl<T>,
    readings: Seq<Result<u32, SchemaError>>,
    r: Result<RecordSchema<T>, SchemaError>,
) -> bool {
    &&& admits_readings(input.fields@, readings)
    &&& match r {
        Ok(schema) => {
            &&& derived_fields(input, readings) == Ok::<Seq<FieldSpec<T>>, SchemaError>(
                schema@.fields,
            )
            &&& schema@.name == input.name@
            &&& schema@.wf()
        },
        Err(e) => derived_fields(input, readings) == Err::<Seq<FieldSpec<T>>, SchemaError>(e),
    }
}

/// A reading that every field admits: the refusal that comes where the
/// annotations give no position.
pub open spec fn refusal<T>(field: FieldDecl<T>) -> Result<u32, SchemaError> {
    match position_text(field) {
        Err(e) => Err(e),
        Ok(_) => Err(SchemaError::InvalidPosition { field: field.name }),
    }
}

/// Every field admits its refusal.
proof fn lemma_refusal_is_admitted<T>(field: FieldDecl<T>)
    ensures
        admits_reading(field, refusal(field)),
{
    if position_text(field) is Ok {
        assert(refusal(field) == position_of(field.name, None));
    }
}

/// Compiles a record declaration into its schema.
///
/// Only a struct with named fields has one. Each field's position is read
/// from its annotations as [`get_order_from_field`] does, in declaration
/// order, and the first field without a position fails the compilation; then
/// the positions are checked and ordered as [`compile_schema`] does. The
/// result is the one that [`derived_fields`] gives for the positions read.
pub fn derive_order<T>(input: RecordDecl<T>) -> (r: Result<RecordSchema<T>, SchemaError>)
    ensures
        exists|readings: Seq<Result<u32, SchemaError>>| is_derivation(input, readings, r),
{
    let RecordDecl { name, shape, fields } = input;
    let ghost decls = fields@;
    let ghost refusals = Seq::new(decls.len(), |i: int| refusal(decls[i]));
    proof {
        assert forall|i: int| 0 <= i < decls.len() implies admits_reading(
            decls[i],
            #[trigger] refusals[i],
        ) by {
            lemma_refusal_is_admitted(decls[i]);
        }
    }
    match shape {
        TargetShape::Enum | TargetShape::Union => {
            let r = Err(SchemaError::NotAStruct);
            assert(is_derivation(input, refusals, r));
            return r;
        },
        TargetShape::TupleStruct | TargetShape::UnitStruct => {
            let r = Err(SchemaError::UnnamedFields);
            assert(is_derivation(input, refusals, r));
            return r;
        },
        TargetShape::NamedStruct => {},
    }
    let declared = fields.len();
    let mut positioned: Vec<FieldSpec<T>> = Vec::new();
    let ghost mut made: Seq<Result<u32, SchemaError>> = Seq::empty();
    for field in it: fields
        invariant
            it.seq() == decls,
            decls == input.fields@,
            input.shape == TargetShape::NamedStruct,
            refusals.len() == decls.len(),
            forall|i: int|
                0 <= i < decls.len() ==> admits_reading(decls[i], #[trigger] refusals[i]),
            made.len() == it.index(),
            positioned.len() == it.index(),
            forall|i: int|
                0 <= i < made.len() ==> {
                    &&& admits_reading(decls[i], #[trigger] made[i])
                    &&& made[i] is Ok
                },
            forall|i: int|
                0 <= i < positioned.len() ==> #[trigger] positioned[i] == (FieldSpec {
                    name: decls[i].name,
                    declared_type: decls[i].declared_type,
                    position: made[i]->Ok_0,
                }),
    {
        let ghost at = it.index() as int;
        let reading = get_order_from_field(&field);
        match reading {
            Ok(position) => {
                proof {
                    made = made.push(reading);
                }
                positioned.push(
                    FieldSpec { name: field.name, declared_type: field.declared_type, position },
                );
            },
            Err(e) => {
                let r = Err(e);
                proof {
                    let all = Seq::new(
                        decls.len(),
                        |i: int|
                            if i < at {
                                made[i]
                            } else if i == at {
                                reading
                            } else {
                                refusals[i]
                            },
                    );
                    assert(admits_readings(decls, all));
                    assert(is_first_refusal(all, at));
                    let first = choose|i: int| is_first_refusal(all, i);
                    if first < at {
                        assert(all[first] is Ok);
                    }
                    if first > at {
                        assert(all[at] is Ok);
                    }
                    assert(is_derivation(input, all, r));
                }
                return r;
            },
        }
    }
    proof {
        assert(admits_readings(decls, made));
        assert forall|i: int| !is_first_refusal(made, i) by {
            if 0 <= i < made.len() {
                assert(made[i] is Ok);
            }
        }
        assert(positioned_fields(decls, made) == Ok::<Seq<FieldSpec<T>>, SchemaError>(
            positioned@,
        )) by {
            assert(positioned@ =~= positioned_fields(decls, made)->Ok_0);
        }
    }
    let r = compile_schema(name, declared, positioned);
    assert(is_derivation(input, made, r));
    r
}

} // verus!
