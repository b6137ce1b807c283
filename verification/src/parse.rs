//! The schema of a composite type and its construction from the declared
//! shape of the type: the fields of a record, the variants of a tagged union
//! with their discriminants, and the integer type that stores the
//! discriminant.

use vstd::prelude::*;

verus! {

/// Why no schema, or no codec, can be made of a declared shape.
#[derive(Clone, Copy, Debug, PartialEq, Eq, Structural)]
pub enum SchemaError {
    /// A named field has no name.
    MissingFieldName,
    /// The type is neither a record nor a tagged union.
    Unsupported,
    /// A record was expected.
    ExpectedStruct,
    /// A tagged union was expected.
    ExpectedEnum,
    /// The record has no field.
    EmptyRecord,
    /// The tagged union names no integer type for its discriminant.
    MissingRepr,
    /// A discriminant is outside the range of the integer type that stores it.
    DiscriminantOutOfRange,
    /// Two variants have the same discriminant.
    DuplicateDiscriminant,
}

/// The integer types that can store a discriminant.
#[derive(Clone, Copy, Debug, PartialEq, Eq, Structural)]
pub enum Repr {
    U8,
    U16,
    U32,
    U64,
    U128,
    Usize,
    I8,
    I16,
    I32,
    I64,
    I128,
    Isize,
}

/// An integer literal: a sign and a magnitude.
#[derive(Clone, Copy, Debug, PartialEq, Eq, Structural)]
pub struct Literal {
    pub negative: bool,
    pub magnitude: u128,
}

impl Literal {
    /// The number that the literal denotes.
    pub open spec fn value(self) -> int {
        if self.negative {
            -(self.magnitude as int)
        } else {
            self.magnitude as int
        }
    }
}

/// The discriminant of a variant: a literal, plus the number of times it was
/// incremented to get from the last explicit discriminant to this variant.
#[derive(Clone, Copy, Debug, PartialEq, Eq, Structural)]
pub struct Discriminant {
    pub literal: Literal,
    pub increments: usize,
}

impl Discriminant {
    /// The number that the discriminant denotes.
    pub open spec fn value(self) -> int {
        self.literal.value() + self.increments
    }

    /// The discriminant that is a literal, not incremented.
    pub open spec fn of(literal: Literal) -> Discriminant {
        Discriminant { literal, increments: 0 }
    }

    /// The discriminant of a first variant that names none.
    pub open spec fn zero() -> Discriminant {
        Discriminant::of(Literal { negative: false, magnitude: 0 })
    }

    /// The discriminant that follows this one.
    pub open spec fn successor(self) -> Discriminant {
        Discriminant { literal: self.literal, increments: (self.increments + 1) as usize }
    }

    /// The discriminant that is `literal`, not incremented.
    pub fn explicit(literal: Literal) -> (discriminant: Discriminant)
        ensures
            discriminant == Discriminant::of(literal),
    {
        Discriminant { literal, increments: 0 }
    }

    /// The discriminant as one literal, unless its magnitude is too large to
    /// be written down.
    pub fn normalized(&self) -> (literal: Option<Literal>)
        ensures
            match literal {
                Some(literal) => literal.value() == self.value() && (literal.negative
                    ==> literal.magnitude > 0),
                None => self.value() > u128::MAX,
            },
    {
        if self.literal.negative {
            let steps: u128 = self.increments as u128;
            if steps >= self.literal.magnitude {
                Some(Literal { negative: false, magnitude: steps - self.literal.magnitude })
            } else {
                Some(Literal { negative: true, magnitude: self.literal.magnitude - steps })
            }
        } else {
            match self.literal.magnitude.checked_add(self.increments as u128) {
                Some(magnitude) => Some(Literal { negative: false, magnitude }),
                None => None,
            }
        }
    }
}

/// The discriminant that follows `expr`.
pub fn increment_expr(expr: Discriminant) -> (next: Discriminant)
    requires
        expr.increments < usize::MAX,
    ensures
        next == expr.successor(),
        next.value() == expr.value() + 1,
{
    Discriminant { literal: expr.literal, increments: expr.increments + 1 }
}

/// The fields of a record or of a variant, in declared order.
#[derive(Clone, Debug, PartialEq, Eq)]
pub enum Fields {
    /// No fields at all.
    Empty,
    /// Positional fields: how many there are.
    Unnamed(u32),
    /// Named fields: their names.
    Named(Vec<String>),
}

/// The model of `Fields`.
pub enum FieldsView {
    Empty,
    Unnamed(u32),
    Named(Seq<Seq<char>>),
}

/// The texts of `names`.
pub open spec fn texts(names: Seq<String>) -> Seq<Seq<char>> {
    Seq::new(names.len(), |index: int| names[index]@)
}

impl View for Fields {
    type V = FieldsView;

    open spec fn view(&self) -> FieldsView {
        match self {
            Fields::Empty => FieldsView::Empty,
            Fields::Unnamed(count) => FieldsView::Unnamed(*count),
            Fields::Named(names) => FieldsView::Named(texts(names@)),
        }
    }
}

impl FieldsView {
    /// The number of fields.
    pub open spec fn arity(self) -> nat {
        match self {
            FieldsView::Empty => 0,
            FieldsView::Unnamed(count) => count as nat,
            FieldsView::Named(names) => names.len(),
        }
    }
}

impl Fields {
    /// The number of fields.
    pub fn arity(&self) -> (count: usize)
        ensures
            count == self@.arity(),
    {
        match self {
            Fields::Empty => 0,
            Fields::Unnamed(count) => *count as usize,
            Fields::Named(names) => names.len(),
        }
    }
}

/// A variant of a tagged union.
#[derive(Clone, Debug, PartialEq, Eq)]
pub struct Variant {
    pub ident: String,
    pub fields: Fields,
    pub discriminant: Discriminant,
}

/// The model of `Variant`.
pub struct VariantView {
    pub ident: Seq<char>,
    pub fields: FieldsView,
    pub discriminant: Discriminant,
}

impl View for Variant {
    type V = VariantView;

    open spec fn view(&self) -> VariantView {
        VariantView {
            ident: self.ident@,
            fields: self.fields@,
            discriminant: self.discriminant,
        }
    }
}

/// The models of `variants`.
pub open spec fn variant_views(variants: Seq<Variant>) -> Seq<VariantView> {
    Seq::new(variants.len(), |index: int| variants[index]@)
}

/// What a composite type is made of.
#[derive(Clone, Debug, PartialEq, Eq)]
pub enum Data {
    /// A record and its fields.
    Struct(Fields),
    /// A tagged union and its variants.
    Enum(Vec<Variant>),
    /// Anything else.
    Unknown,
}

/// The model of `Data`.
pub enum DataView {
    Struct(FieldsView),
    Enum(Seq<VariantView>),
    Unknown,
}

impl View for Data {
    type V = DataView;

    open spec fn view(&self) -> DataView {
        match self {
            Data::Struct(fields) => DataView::Struct(fields@),
            Data::Enum(variants) => DataView::Enum(variant_views(variants@)),
            Data::Unknown => DataView::Unknown,
        }
    }
}

/// The schema of a composite type: its name, the integer type that stores
/// the discriminant of a tagged union, and its fields or variants.
#[derive(Clone, Debug, PartialEq, Eq)]
pub struct TransmittableInput {
    pub ident: String,
    pub repr: Option<Repr>,
    pub data: Data,
}

/// The model of `TransmittableInput`.
pub struct InputView {
    pub ident: Seq<char>,
    pub repr: Option<Repr>,
    pub data: DataView,
}

impl View for TransmittableInput {
    type V = InputView;

    open spec fn view(&self) -> InputView {
        InputView { ident: self.ident@, repr: self.repr, data: self.data@ }
    }
}

/// An attribute of a declaration: its path, and those of its arguments that
/// are plain names.
#[derive(Clone, Debug, PartialEq, Eq)]
pub struct Attribute {
    pub path: String,
    pub arguments: Vec<String>,
}

/// The model of `Attribute`.
pub struct AttributeView {
    pub path: Seq<char>,
    pub arguments: Seq<Seq<char>>,
}

impl View for Attribute {
    type V = AttributeView;

    open spec fn view(&self) -> AttributeView {
        AttributeView { path: self.path@, arguments: texts(self.arguments@) }
    }
}

/// The fields of a record or of a variant as they were declared.
#[derive(Clone, Debug, PartialEq, Eq)]
pub enum DeclaredFields {
    /// Fields in braces; each should have a name.
    Named(Vec<Option<String>>),
    /// Fields in parentheses: how many there are.
    Unnamed(usize),
    /// No fields.
    Unit,
}

/// The model of `DeclaredFields`.
pub enum DeclaredFieldsView {
    Named(Seq<Option<Seq<char>>>),
    Unnamed(usize),
    Unit,
}

/// The text of a name that may be missing.
pub open spec fn optional_text(name: Option<String>) -> Option<Seq<char>> {
    match name {
        Some(name) => Some(name@),
        None => None,
    }
}

impl View for DeclaredFields {
    type V = DeclaredFieldsView;

    open spec fn view(&self) -> DeclaredFieldsView {
        match self {
            DeclaredFields::Named(idents) => DeclaredFieldsView::Named(
                Seq::new(idents@.len(), |index: int| optional_text(idents@[index])),
            ),
            DeclaredFields::Unnamed(count) => DeclaredFieldsView::Unnamed(*count),
            DeclaredFields::Unit => DeclaredFieldsView::Unit,
        }
    }
}

/// A variant as it was declared, with the discriminant that it names, if any.
#[derive(Clone, Debug, PartialEq, Eq)]
pub struct DeclaredVariant {
    pub ident: String,
    pub fields: DeclaredFields,
    pub discriminant: Option<Literal>,
}

/// The model of `DeclaredVariant`.
pub struct DeclaredVariantView {
    pub ident: Seq<char>,
    pub fields: DeclaredFieldsView,
    pub discriminant: Option<Literal>,
}

impl View for DeclaredVariant {
    type V = DeclaredVariantView;

    open spec fn view(&self) -> DeclaredVariantView {
        DeclaredVariantView {
            ident: self.ident@,
            fields: self.fields@,
            discriminant: self.discriminant,
        }
    }
}

/// The body of a declaration.
#[derive(Clone, Debug, PartialEq, Eq)]
pub enum DeclaredData {
    Struct(DeclaredFields),
    Enum(Vec<DeclaredVariant>),
    Union,
}

/// The model of `DeclaredData`.
pub enum DeclaredDataView {
    Struct(DeclaredFieldsView),
    Enum(Seq<DeclaredVariantView>),
    Union,
}

impl View for DeclaredData {
    type V = DeclaredDataView;

    open spec fn view(&self) -> DeclaredDataView {
        match self {
            DeclaredData::Struct(fields) => DeclaredDataView::Struct(fields@),
            DeclaredData::Enum(variants) => DeclaredDataView::Enum(
                Seq::new(variants@.len(), |index: int| variants@[index]@),
            ),
            DeclaredData::Union => DeclaredDataView::Union,
        }
    }
}

/// The declared shape of a type: what is known of it before its schema is
/// made.
#[derive(Clone, Debug, PartialEq, Eq)]
pub struct Declaration {
    pub ident: String,
    pub attrs: Vec<Attribute>,
    pub data: DeclaredData,
}

/// The model of `Declaration`.
pub struct DeclarationView {
    pub ident: Seq<char>,
    pub attrs: Seq<AttributeView>,
    pub data: DeclaredDataView,
}

impl View for Declaration {
    type V = DeclarationView;

    open spec fn view(&self) -> DeclarationView {
        DeclarationView {
            ident: self.ident@,
            attrs: Seq::new(self.attrs@.len(), |index: int| self.attrs@[index]@),
            data: self.data@,
        }
    }
}

/// The model of what a fallible construction returned.
pub open spec fn view_of<T: View>(result: Result<T, SchemaError>) -> Result<T::V, SchemaError> {
    match result {
        Ok(value) => Ok(value@),
        Err(error) => Err(error),
    }
}

/// The integer type of the given name, if it is the name of one.
pub open spec fn repr_named(name: Seq<char>) -> Option<Repr> {
    if name == "u8"@ {
        Some(Repr::U8)
    } else if name == "u16"@ {
        Some(Repr::U16)
    } else if name == "u32"@ {
        Some(Repr::U32)
    } else if name == "u64"@ {
        Some(Repr::U64)
    } else if name == "u128"@ {
        Some(Repr::U128)
    } else if name == "usize"@ {
        Some(Repr::Usize)
    } else if name == "i8"@ {
        Some(Repr::I8)
    } else if name == "i16"@ {
        Some(Repr::I16)
    } else if name == "i32"@ {
        Some(Repr::I32)
    } else if name == "i64"@ {
        Some(Repr::I64)
    } else if name == "i128"@ {
        Some(Repr::I128)
    } else if name == "isize"@ {
        Some(Repr::Isize)
    } else {
        None
    }
}

/// The integer type that the arguments of one attribute select: the last
/// that they name.
pub open spec fn repr_among(arguments: Seq<Seq<char>>) -> Option<Repr>
    decreases arguments.len(),
{
    if arguments.len() == 0 {
        None
    } else {
        match repr_named(arguments.last()) {
            Some(repr) => Some(repr),
            None => repr_among(arguments.drop_last()),
        }
    }
}

/// The integer type that one attribute selects: none unless it is a `repr`.
pub open spec fn repr_in(attribute: AttributeView) -> Option<Repr> {
    if attribute.path == "repr"@ {
        repr_among(attribute.arguments)
    } else {
        None
    }
}

/// The integer type that the attributes select: that of the first `repr`
/// attribute that names one.
pub open spec fn repr_of(attrs: Seq<AttributeView>) -> Option<Repr>
    decreases attrs.len(),
{
    if attrs.len() == 0 {
        None
    } else {
        match repr_in(attrs.first()) {
            Some(repr) => Some(repr),
            None => repr_of(attrs.drop_first()),
        }
    }
}

/// Whether `name` is the text `expected`.
fn is_text(name: &String, expected: &str) -> (same: bool)
    ensures
        same == (name@ == expected@),
{
    let owned = expected.to_owned();
    *name == owned
}

impl Repr {
    /// The integer type of the given name, if it is the name of one.
    pub fn from_name(name: &String) -> (repr: Option<Repr>)
        ensures
            repr == repr_named(name@),
    {
        if is_text(name, "u8") {
            Some(Repr::U8)
        } else if is_text(name, "u16") {
            Some(Repr::U16)
        } else if is_text(name, "u32") {
            Some(Repr::U32)
        } else if is_text(name, "u64") {
            Some(Repr::U64)
        } else if is_text(name, "u128") {
            Some(Repr::U128)
        } else if is_text(name, "usize") {
            Some(Repr::Usize)
        } else if is_text(name, "i8") {
            Some(Repr::I8)
        } else if is_text(name, "i16") {
            Some(Repr::I16)
        } else if is_text(name, "i32") {
            Some(Repr::I32)
        } else if is_text(name, "i64") {
            Some(Repr::I64)
        } else if is_text(name, "i128") {
            Some(Repr::I128)
        } else if is_text(name, "isize") {
            Some(Repr::Isize)
        } else {
            None
        }
    }
}

/// The integer type that stores the discriminant of the declared type: in
/// the first `repr` attribute that names an integer type, the last one named.
pub fn parse_repr(input: &Declaration) -> (repr: Option<Repr>)
    ensures
        repr == repr_of(input@.attrs),
{
    let attrs = &input.attrs;
    let ghost models = input@.attrs;
    let mut index: usize = 0;
    assert(models.skip(0) == models);
    while index < attrs.len()
        invariant
            index <= attrs.len(),
            attrs == &input.attrs,
            models == input@.attrs,
            repr_of(models) == repr_of(models.skip(index as int)),
        decreases attrs.len() - index,
    {
        let attribute = &attrs[index];
        let mut found: Option<Repr> = None;
        assert(models.skip(index as int).first() == attribute@);
        if is_text(&attribute.path, "repr") {
            let arguments = &attribute.arguments;
            let ghost names = attribute@.arguments;
            let mut position: usize = 0;
            while position < arguments.len()
                invariant
                    position <= arguments.len(),
                    names == texts(arguments@),
                    found == repr_among(names.take(position as int)),
                decreases arguments.len() - position,
            {
                assert(names.take(position + 1).drop_last() == names.take(position as int));
                assert(names.take(position + 1).last() == arguments@[position as int]@);
                match Repr::from_name(&arguments[position]) {
                    Some(repr) => {
                        found = Some(repr);
                    },
                    None => {},
                }
                position = position + 1;
            }
            assert(names.take(position as int) == names);
        }
        assert(found == repr_in(attribute@));
        if found.is_some() {
            return found;
        }
        assert(models.skip(index as int).drop_first() == models.skip(index + 1));
        index = index + 1;
    }
    None
}

/// The fields that a declaration of fields stands for. Every named field
/// must have a name; positional fields are counted in 32 bits.
pub open spec fn declared_fields(input: DeclaredFieldsView) -> Result<FieldsView, SchemaError> {
    match input {
        DeclaredFieldsView::Named(idents) => {
            if forall|index: int| 0 <= index < idents.len() ==> (#[trigger] idents[index]) is Some {
                Ok(FieldsView::Named(Seq::new(idents.len(), |index: int| idents[index]->0)))
            } else {
                Err(SchemaError::MissingFieldName)
            }
        },
        DeclaredFieldsView::Unnamed(count) => Ok(
            FieldsView::Unnamed((count as int % 0x1_0000_0000) as u32),
        ),
        DeclaredFieldsView::Unit => Ok(FieldsView::Empty),
    }
}

/// Makes the fields of a schema from declared fields.
pub fn parse_fields(input: &DeclaredFields) -> (result: Result<Fields, SchemaError>)
    ensures
        view_of(result) == declared_fields(input@),
{
    match input {
        DeclaredFields::Named(idents) => {
            let ghost models = input@->Named_0;
            let mut names: Vec<String> = Vec::new();
            let mut index: usize = 0;
            while index < idents.len()
                invariant
                    index <= idents.len(),
                    *input == DeclaredFields::Named(*idents),
                    models == input@->Named_0,
                    names@.len() == index,
                    forall|at: int| 0 <= at < index ==> (#[trigger] models[at]) is Some,
                    forall|at: int| 0 <= at < index ==> (#[trigger] names@[at])@ == models[at]->0,
                decreases idents.len() - index,
            {
                match &idents[index] {
                    Some(name) => {
                        names.push(name.clone());
                    },
                    None => {
                        assert(models[index as int] is None);
                        return Err(SchemaError::MissingFieldName);
                    },
                }
                index = index + 1;
            }
            assert(texts(names@) == Seq::new(models.len(), |index: int| models[index]->0));
            Ok(Fields::Named(names))
        },
        DeclaredFields::Unnamed(count) => {
            let wrapped: u64 = *count as u64 % 0x1_0000_0000;
            Ok(Fields::Unnamed(wrapped as u32))
        },
        DeclaredFields::Unit => Ok(Fields::Empty),
    }
}

/// The discriminant of the variant at `index`: the one that it names, or
/// else the successor of the discriminant before it, or zero for the first.
pub open spec fn assigned(variants: Seq<DeclaredVariantView>, index: int) -> Discriminant
    decreases index,
{
    if index < 0 || index >= variants.len() {
        Discriminant::zero()
    } else {
        match variants[index].discriminant {
            Some(literal) => Discriminant::of(literal),
            None => if index == 0 {
                Discriminant::zero()
            } else {
                assigned(variants, index - 1).successor()
            },
        }
    }
}

/// The discriminant that the variant at `index` gets if it names none.
pub open spec fn counter(variants: Seq<DeclaredVariantView>, index: int) -> Discriminant {
    if index <= 0 {
        Discriminant::zero()
    } else {
        assigned(variants, index - 1).successor()
    }
}

/// The variant of the schema that the declared variant at `index` stands for.
pub open spec fn declared_variant(variants: Seq<DeclaredVariantView>, index: int) -> VariantView {
    VariantView {
        ident: variants[index].ident,
        fields: declared_fields(variants[index].fields)->Ok_0,
        discriminant: assigned(variants, index),
    }
}

/// The variants of the schema that declared variants stand for, in declared
/// order.
pub open spec fn declared_variants(variants: Seq<DeclaredVariantView>) -> Result<
    Seq<VariantView>,
    SchemaError,
> {
    if forall|index: int|
        0 <= index < variants.len() ==> declared_fields((#[trigger] variants[index]).fields) is Ok {
        Ok(Seq::new(variants.len(), |index: int| declared_variant(variants, index)))
    } else {
        Err(SchemaError::MissingFieldName)
    }
}

/// The schema that a declared shape stands for. Only a tagged union has an
/// integer type for its discriminant.
pub open spec fn parsed(input: DeclarationView) -> Result<InputView, SchemaError> {
    match input.data {
        DeclaredDataView::Struct(fields) => match declared_fields(fields) {
            Ok(fields) => Ok(
                InputView { ident: input.ident, repr: None, data: DataView::Struct(fields) },
            ),
            Err(error) => Err(error),
        },
        DeclaredDataView::Enum(variants) => match declared_variants(variants) {
            Ok(variants) => Ok(
                InputView {
                    ident: input.ident,
                    repr: repr_of(input.attrs),
                    data: DataView::Enum(variants),
                },
            ),
            Err(error) => Err(error),
        },
        DeclaredDataView::Union => Ok(
            InputView { ident: input.ident, repr: None, data: DataView::Unknown },
        ),
    }
}

/// A discriminant was incremented at most once for each variant before it.
pub proof fn lemma_increments_bound(variants: Seq<DeclaredVariantView>, index: int)
    requires
        0 <= index < variants.len() <= usize::MAX,
    ensures
        assigned(variants, index).increments <= index,
    decreases index,
{
    if index > 0 {
        lemma_increments_bound(variants, index - 1);
    }
}

/// Discriminants are numbered as in C: a variant that names a discriminant
/// has it; one that names none has zero if it is the first, and otherwise
/// one more than the variant before it.
pub proof fn lemma_discriminant_assignment(variants: Seq<DeclaredVariantView>, index: int)
    requires
        0 <= index < variants.len() <= usize::MAX,
    ensures
        assigned(variants, index).value() == match variants[index].discriminant {
            Some(literal) => literal.value(),
            None => if index == 0 {
                0
            } else {
                assigned(variants, index - 1).value() + 1
            },
        },
{
    if index > 0 {
        lemma_increments_bound(variants, index - 1);
    }
}

/// A schema keeps the variants of the declaration in their order, each with
/// its name and its assigned discriminant.
pub proof fn lemma_variants_in_declared_order(input: DeclarationView, index: int)
    requires
        input.data is Enum,
        parsed(input) is Ok,
        0 <= index < input.data->Enum_0.len(),
    ensures
        parsed(input)->Ok_0.data is Enum,
        parsed(input)->Ok_0.data->Enum_0.len() == input.data->Enum_0.len(),
        parsed(input)->Ok_0.data->Enum_0[index].ident == input.data->Enum_0[index].ident,
        parsed(input)->Ok_0.data->Enum_0[index].discriminant == assigned(
            input.data->Enum_0,
            index,
        ),
{
}

/// Making a schema twice of the same declared shape gives the same schema:
/// the same fields in the same order and the same discriminants.
pub proof fn lemma_schema_construction_idempotent(
    shape: Declaration,
    again: Declaration,
    first: Result<TransmittableInput, SchemaError>,
    second: Result<TransmittableInput, SchemaError>,
)
    requires
        shape@ == again@,
        view_of(first) == parsed(shape@),
        view_of(second) == parsed(again@),
    ensures
        view_of(first) == view_of(second),
{
}

impl TransmittableInput {
    /// Makes the schema of a declared type. The variants of a tagged union
    /// keep their order and get their discriminants; its integer type is
    /// looked up among the attributes.
    pub fn parse(input: &Declaration) -> (result: Result<TransmittableInput, SchemaError>)
        ensures
            view_of(result) == parsed(input@),
    {
        match &input.data {
            DeclaredData::Struct(declared) => match parse_fields(declared) {
                Ok(fields) => Ok(
                    TransmittableInput {
                        ident: input.ident.clone(),
                        repr: None,
                        data: Data::Struct(fields),
                    },
                ),
                Err(error) => Err(error),
            },
            DeclaredData::Enum(declared) => {
                let ghost models = input@.data->Enum_0;
                let repr = parse_repr(input);
                let mut current_discriminant = Discriminant::explicit(
                    Literal { negative: false, magnitude: 0 },
                );
                let mut variants: Vec<Variant> = Vec::new();
                let mut index: usize = 0;
                while index < declared.len()
                    invariant
                        index <= declared.len(),
                        input.data == DeclaredData::Enum(*declared),
                        models == input@.data->Enum_0,
                        variants@.len() == index,
                        current_discriminant == counter(models, index as int),
                        current_discriminant.increments <= index,
                        forall|at: int|
                            0 <= at < index ==> declared_fields((#[trigger] models[at]).fields) is Ok,
                        forall|at: int|
                            0 <= at < index ==> (#[trigger] variants@[at])@ == declared_variant(
                                models,
                                at,
                            ),
                    decreases declared.len() - index,
                {
                    let variant = &declared[index];
                    assert(models[index as int] == variant@);
                    match parse_fields(&variant.fields) {
                        Ok(fields) => {
                            let discriminant = match variant.discriminant {
                                Some(literal) => Discriminant::explicit(literal),
                                None => current_discriminant,
                            };
                            current_discriminant = increment_expr(discriminant);
                            variants.push(
                                Variant { ident: variant.ident.clone(), fields, discriminant },
                            );
                        },
                        Err(error) => {
                            return Err(error);
                        },
                    }
                    index = index + 1;
                }
                assert(variant_views(variants@) == Seq::new(
                    models.len(),
                    |index: int| declared_variant(models, index),
                ));
                Ok(
                    TransmittableInput {
                        ident: input.ident.clone(),
                        repr,
                        data: Data::Enum(variants),
                    },
                )
            },
            DeclaredData::Union => Ok(
                TransmittableInput { ident: input.ident.clone(), repr: None, data: Data::Unknown },
            ),
        }
    }
}

} // verus!
