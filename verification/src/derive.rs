//! Codecs for composite types, derived from their schema: a record is its
//! fields in declared order; a tagged union is the discriminant of the
//! active variant, in the width of its integer type, and then that
//! variant's fields.

use vstd::prelude::*;
use crate::endian::{
    be_bytes, fits_signed, lemma_radix_values, lemma_signed_round_trip, radix, twos_complement,
};
use crate::integers::{
    decode_fixed, lemma_fixed_round_trip, radix_of, read_bits, word_bytes, word_width, write_bits,
};
use crate::parse::{
    variant_views, view_of, Data, DataView, Discriminant, Fields, FieldsView, InputView, Repr,
    SchemaError, TransmittableInput, Variant, VariantView,
};
use crate::fields::FieldList;
use crate::stream::{lemma_write_in_two, Sink, Source};
use crate::{model_of, Decoded, Error};

verus! {

impl Repr {
    /// The number of bytes of the integer type.
    pub open spec fn width(self) -> nat {
        match self {
            Repr::U8 | Repr::I8 => 1,
            Repr::U16 | Repr::I16 => 2,
            Repr::U32 | Repr::I32 => 4,
            Repr::U64 | Repr::I64 => 8,
            Repr::U128 | Repr::I128 => 16,
            Repr::Usize | Repr::Isize => word_width(),
        }
    }

    /// Whether the integer type is signed.
    pub open spec fn signed(self) -> bool {
        match self {
            Repr::I8 | Repr::I16 | Repr::I32 | Repr::I64 | Repr::I128 | Repr::Isize => true,
            _ => false,
        }
    }

    /// Whether `value` is in the range of the integer type.
    pub open spec fn holds(self, value: int) -> bool {
        if self.signed() {
            fits_signed(value, self.width())
        } else {
            0 <= value < radix(self.width())
        }
    }

    /// The number that stands for `value` on the wire: `value` itself for an
    /// unsigned type, its two's complement for a signed one.
    pub open spec fn bits(self, value: int) -> nat {
        twos_complement(value, self.width())
    }

    /// The number of bytes of the integer type.
    pub fn bytes(&self) -> (width: usize)
        ensures
            width == self.width(),
            width == 1 || width == 2 || width == 4 || width == 8 || width == 16,
    {
        match self {
            Repr::U8 | Repr::I8 => 1,
            Repr::U16 | Repr::I16 => 2,
            Repr::U32 | Repr::I32 => 4,
            Repr::U64 | Repr::I64 => 8,
            Repr::U128 | Repr::I128 => 16,
            Repr::Usize | Repr::Isize => word_bytes(),
        }
    }

    /// Whether the integer type is signed.
    pub fn is_signed(&self) -> (signed: bool)
        ensures
            signed == self.signed(),
    {
        match self {
            Repr::I8 | Repr::I16 | Repr::I32 | Repr::I64 | Repr::I128 | Repr::Isize => true,
            _ => false,
        }
    }

    /// The number that stands for the discriminant on the wire, if the
    /// integer type holds it.
    pub fn tag(&self, discriminant: &Discriminant) -> (tag: Option<u128>)
        ensures
            tag is Some <==> self.holds(discriminant.value()),
            tag matches Some(bits) ==> bits == self.bits(discriminant.value()) && bits < radix(
                self.width(),
            ),
    {
        proof {
            lemma_radix_values();
        }
        let width = self.bytes();
        let signed = self.is_signed();
        match discriminant.normalized() {
            None => None,
            Some(literal) => {
                if width == 16 {
                    if !signed {
                        if literal.negative {
                            None
                        } else {
                            Some(literal.magnitude)
                        }
                    } else if literal.negative {
                        if literal.magnitude <= 0x8000_0000_0000_0000_0000_0000_0000_0000 {
                            Some(u128::MAX - literal.magnitude + 1)
                        } else {
                            None
                        }
                    } else if literal.magnitude < 0x8000_0000_0000_0000_0000_0000_0000_0000 {
                        Some(literal.magnitude)
                    } else {
                        None
                    }
                } else {
                    let limit = radix_of(width);
                    if !signed {
                        if !literal.negative && literal.magnitude < limit {
                            Some(literal.magnitude)
                        } else {
                            None
                        }
                    } else if literal.negative {
                        if literal.magnitude <= limit / 2 {
                            Some(limit - literal.magnitude)
                        } else {
                            None
                        }
                    } else if literal.magnitude < limit / 2 {
                        Some(literal.magnitude)
                    } else {
                        None
                    }
                }
            },
        }
    }
}

/// Two discriminants that an integer type holds and that look the same on
/// the wire are the same.
pub proof fn lemma_bits_injective(repr: Repr, first: int, second: int)
    requires
        repr.holds(first),
        repr.holds(second),
        repr.bits(first) == repr.bits(second),
    ensures
        first == second,
{
    if repr.signed() {
        lemma_signed_round_trip(first, repr.width());
        lemma_signed_round_trip(second, repr.width());
    }
}

/// The model of a codec: the valid schema that it was derived from.
pub enum CodecView {
    Record { ident: Seq<char>, fields: FieldsView },
    Union { ident: Seq<char>, repr: Repr, variants: Seq<VariantView> },
}

/// Whether `repr` holds the discriminant of every variant.
pub open spec fn all_in_range(variants: Seq<VariantView>, repr: Repr) -> bool {
    forall|index: int|
        0 <= index < variants.len() ==> repr.holds((#[trigger] variants[index]).discriminant.value())
}

/// Whether no two variants have the same discriminant.
pub open spec fn all_distinct(variants: Seq<VariantView>) -> bool {
    forall|first: int, second: int|
        0 <= first < second < variants.len() ==> (#[trigger] variants[first]).discriminant.value()
            != (#[trigger] variants[second]).discriminant.value()
}

/// The first of the variants whose discriminant looks like `bits` on the
/// wire, if there is one.
pub open spec fn lookup(variants: Seq<VariantView>, repr: Repr, bits: nat) -> Option<int>
    decreases variants.len(),
{
    if variants.len() == 0 {
        None
    } else {
        match lookup(variants.drop_last(), repr, bits) {
            Some(index) => Some(index),
            None => if repr.bits(variants.last().discriminant.value()) == bits {
                Some(variants.len() - 1)
            } else {
                None
            },
        }
    }
}

impl CodecView {
    /// Whether the schema is valid: a record has a field; the integer type
    /// of a tagged union holds every discriminant, and no two variants share
    /// one.
    pub open spec fn wf(self) -> bool {
        match self {
            CodecView::Record { fields, .. } => fields.arity() > 0,
            CodecView::Union { repr, variants, .. } => variants.len() <= usize::MAX
                && all_in_range(variants, repr) && all_distinct(variants),
        }
    }

    /// The number of variants; a record counts as one.
    pub open spec fn variant_count(self) -> nat {
        match self {
            CodecView::Record { .. } => 1,
            CodecView::Union { variants, .. } => variants.len(),
        }
    }

    /// The number of fields of a variant.
    pub open spec fn arity(self, variant: int) -> nat {
        match self {
            CodecView::Record { fields, .. } => fields.arity(),
            CodecView::Union { variants, .. } => variants[variant].fields.arity(),
        }
    }

    /// The bytes that tell which variant follows: none for a record; for a
    /// tagged union the discriminant of the variant, big-endian in the width
    /// of the integer type.
    pub open spec fn tag_encoding(self, variant: int) -> Seq<u8> {
        match self {
            CodecView::Record { .. } => Seq::empty(),
            CodecView::Union { repr, variants, .. } => be_bytes(
                repr.bits(variants[variant].discriminant.value()),
                repr.width(),
            ),
        }
    }

    /// What decoding makes of `input` where a variant is to be told: for a
    /// record nothing is read; for a tagged union a discriminant is read and
    /// looked up among the variants, exactly.
    pub open spec fn tag_decoding(self, input: Seq<u8>) -> Decoded<usize> {
        match self {
            CodecView::Record { .. } => Decoded::success(0, 0),
            CodecView::Union { repr, variants, .. } => {
                let read = decode_fixed(input, repr.width());
                match read.outcome {
                    Ok(bits) => match lookup(variants, repr, bits) {
                        Some(index) => Decoded::success(index as usize, read.consumed),
                        None => Decoded::failure(Error::InvalidEnumVariant, read.consumed),
                    },
                    Err(error) => Decoded::failure(error, read.consumed),
                }
            },
        }
    }

    /// The bytes that encode a value: what tells its variant, then the
    /// fields of that variant in declared order.
    pub open spec fn encoding<L: FieldList>(self, variant: int, fields: L::V) -> Seq<u8> {
        self.tag_encoding(variant) + L::encoding(fields)
    }
}

/// What is found among the first variants is found among all of them.
pub proof fn lemma_lookup_stays(
    variants: Seq<VariantView>,
    repr: Repr,
    bits: nat,
    checked: int,
)
    requires
        0 <= checked <= variants.len(),
        lookup(variants.take(checked), repr, bits) is Some,
    ensures
        lookup(variants, repr, bits) == lookup(variants.take(checked), repr, bits),
    decreases variants.len() - checked,
{
    if checked < variants.len() {
        assert(variants.take(checked + 1).drop_last() == variants.take(checked));
        lemma_lookup_stays(variants, repr, bits, checked + 1);
    } else {
        assert(variants.take(checked) == variants);
    }
}

/// What `lookup` finds is a variant with the discriminant asked for, and
/// it finds nothing only if there is none.
pub proof fn lemma_lookup_finds(variants: Seq<VariantView>, repr: Repr, bits: nat)
    ensures
        match lookup(variants, repr, bits) {
            Some(index) => 0 <= index < variants.len() && repr.bits(
                variants[index].discriminant.value(),
            ) == bits,
            None => forall|index: int|
                0 <= index < variants.len() ==> repr.bits(
                    (#[trigger] variants[index]).discriminant.value(),
                ) != bits,
        },
    decreases variants.len(),
{
    if variants.len() > 0 {
        lemma_lookup_finds(variants.drop_last(), repr, bits);
        if lookup(variants.drop_last(), repr, bits) is None {
            assert forall|index: int| 0 <= index < variants.len() - 1 implies repr.bits(
                (#[trigger] variants[index]).discriminant.value(),
            ) != bits by {
                assert(variants.drop_last()[index] == variants[index]);
            }
        }
    }
}

/// In a valid tagged union the discriminant of a variant is looked up to
/// that variant and no other.
pub proof fn lemma_lookup_own(codec: CodecView, variant: int)
    requires
        codec.wf(),
        codec is Union,
        0 <= variant < codec.variant_count(),
    ensures
        lookup(
            codec->variants,
            codec->repr,
            codec->repr.bits(codec->variants[variant].discriminant.value()),
        ) == Some(variant),
{
    let variants = codec->variants;
    let repr = codec->repr;
    let bits = repr.bits(variants[variant].discriminant.value());
    lemma_lookup_finds(variants, repr, bits);
    match lookup(variants, repr, bits) {
        Some(index) => {
            lemma_bits_injective(
                repr,
                variants[index].discriminant.value(),
                variants[variant].discriminant.value(),
            );
        },
        None => {},
    }
}

/// The codec of a composite type: its valid schema, with the discriminants
/// of a tagged union as they stand on the wire.
pub struct Codec {
    ident: String,
    shape: Shape,
}

enum Shape {
    Record { fields: Fields },
    Union { repr: Repr, variants: Vec<Variant>, tags: Vec<u128> },
}

/// Whether `tags` holds, for each variant, its discriminant as it stands on
/// the wire.
spec fn tags_match(variants: Seq<VariantView>, repr: Repr, tags: Seq<u128>) -> bool {
    &&& tags.len() == variants.len()
    &&& forall|index: int|
        0 <= index < variants.len() ==> (#[trigger] tags[index]) == repr.bits(
            variants[index].discriminant.value(),
        )
}

impl View for Codec {
    type V = CodecView;

    closed spec fn view(&self) -> CodecView {
        match self.shape {
            Shape::Record { fields } => CodecView::Record { ident: self.ident@, fields: fields@ },
            Shape::Union { repr, variants, tags } => CodecView::Union {
                ident: self.ident@,
                repr,
                variants: variant_views(variants@),
            },
        }
    }
}

impl Codec {
    #[verifier::type_invariant]
    closed spec fn well_formed(self) -> bool {
        &&& self@.wf()
        &&& match self.shape {
            Shape::Record { .. } => true,
            Shape::Union { repr, variants, tags } => tags_match(
                variant_views(variants@),
                repr,
                tags@,
            ),
        }
    }

    /// The name of the type.
    pub fn ident(&self) -> (ident: &String)
        ensures
            ident@ == match self@ {
                CodecView::Record { ident, .. } => ident,
                CodecView::Union { ident, .. } => ident,
            },
    {
        &self.ident
    }

    /// The integer type that stores the discriminant; none for a record.
    pub fn repr(&self) -> (repr: Option<Repr>)
        ensures
            repr == match self@ {
                CodecView::Record { .. } => None,
                CodecView::Union { repr, .. } => Some(repr),
            },
    {
        match &self.shape {
            Shape::Record { .. } => None,
            Shape::Union { repr, .. } => Some(*repr),
        }
    }

    /// The number of variants; a record counts as one. The schema of a
    /// codec is always valid.
    pub fn variant_count(&self) -> (count: usize)
        ensures
            count == self@.variant_count(),
            self@.wf(),
    {
        proof {
            use_type_invariant(self);
        }
        match &self.shape {
            Shape::Record { .. } => 1,
            Shape::Union { variants, .. } => variants.len(),
        }
    }

    /// The number of fields of a variant, if there is such a variant.
    pub fn arity(&self, variant: usize) -> (count: Option<usize>)
        ensures
            count is Some <==> variant < self@.variant_count(),
            count matches Some(fields) ==> fields == self@.arity(variant as int),
    {
        match &self.shape {
            Shape::Record { fields } => if variant == 0 {
                Some(fields.arity())
            } else {
                None
            },
            Shape::Union { variants, .. } => if variant < variants.len() {
                Some(variants[variant].fields.arity())
            } else {
                None
            },
        }
    }

    /// The discriminant of a variant of a tagged union, if there is such a
    /// variant.
    pub fn discriminant(&self, variant: usize) -> (discriminant: Option<Discriminant>)
        ensures
            discriminant == match self@ {
                CodecView::Record { .. } => None::<Discriminant>,
                CodecView::Union { variants, .. } => if variant < variants.len() {
                    Some(variants[variant as int].discriminant)
                } else {
                    None
                },
            },
    {
        match &self.shape {
            Shape::Record { .. } => None,
            Shape::Union { variants, .. } => if variant < variants.len() {
                Some(variants[variant].discriminant)
            } else {
                None
            },
        }
    }

    /// Writes a value: what tells its variant, then its fields in declared
    /// order. Stops at the first write that does not fit; what was written
    /// stays.
    pub fn serialize<L: FieldList>(&self, variant: usize, fields: &L, sink: &mut Sink) -> (result:
        Result<(), Error>)
        requires
            variant < self@.variant_count(),
            L::arity() == self@.arity(variant as int),
        ensures
            old(sink).wrote(
                *final(sink),
                self@.encoding::<L>(variant as int, fields.deep_view()),
                result,
            ),
            result is Ok ==> L::valid(fields.deep_view()),
    {
        proof {
            use_type_invariant(self);
        }
        match &self.shape {
            Shape::Record { .. } => {
                assert(self@.encoding::<L>(variant as int, fields.deep_view()) == L::encoding(
                    fields.deep_view(),
                ));
                fields.serialize_fields(sink)
            },
            Shape::Union { repr, tags, .. } => {
                let ghost start = *sink;
                let tag = write_bits(tags[variant], repr.bytes(), sink);
                proof {
                    lemma_write_in_two(
                        start,
                        *sink,
                        self@.tag_encoding(variant as int),
                        L::encoding(fields.deep_view()),
                    );
                }
                if tag.is_err() {
                    return tag;
                }
                fields.serialize_fields(sink)
            },
        }
    }

    /// Reads which variant follows. For a record nothing is read; for a
    /// tagged union a discriminant is read and looked up, and one that no
    /// variant has fails with `InvalidEnumVariant`, nothing else being read.
    #[verifier::loop_isolation(false)]
    pub fn deserialize_variant(&self, source: &mut Source) -> (result: Result<usize, Error>)
        ensures
            self@.tag_decoding(old(source).remaining()).read(*old(source), *final(source), result),
            result matches Ok(variant) ==> variant < self@.variant_count(),
    {
        proof {
            use_type_invariant(self);
        }
        match &self.shape {
            Shape::Record { .. } => Ok(0),
            Shape::Union { repr, variants, tags } => {
                let bits = match read_bits(source, repr.bytes()) {
                    Ok(bits) => bits,
                    Err(error) => {
                        return Err(error);
                    },
                };
                let ghost views = variant_views(variants@);
                let mut index: usize = 0;
                while index < tags.len()
                    invariant
                        index <= tags.len(),
                        tags_match(views, *repr, tags@),
                        lookup(views.take(index as int), *repr, bits as nat) is None,
                    decreases tags.len() - index,
                {
                    assert(views.take(index + 1).drop_last() == views.take(index as int));
                    if tags[index] == bits {
                        proof {
                            lemma_lookup_stays(views, *repr, bits as nat, index + 1);
                        }
                        return Ok(index);
                    }
                    index = index + 1;
                }
                assert(views.take(index as int) == views);
                Err(Error::InvalidEnumVariant)
            },
        }
    }

    /// Reads the fields of a variant in declared order.
    pub fn deserialize_fields<L: FieldList>(&self, variant: usize, source: &mut Source) -> (result:
        Result<L, Error>)
        requires
            variant < self@.variant_count(),
            L::arity() == self@.arity(variant as int),
        ensures
            L::decoding(old(source).remaining()).read(
                *old(source),
                *final(source),
                model_of(result),
            ),
    {
        L::deserialize_fields(source)
    }
}

/// A schema that gives a codec gives a valid one.
pub proof fn lemma_derived_wf(input: InputView)
    requires
        derived(input) is Ok,
        input.data matches DataView::Enum(variants) ==> variants.len() <= usize::MAX,
    ensures
        derived(input)->Ok_0.wf(),
{
}

/// What tells the variant of a value is read back as that variant, and
/// nothing else is consumed.
pub proof fn lemma_tag_round_trip(codec: CodecView, variant: int, rest: Seq<u8>)
    requires
        codec.wf(),
        0 <= variant < codec.variant_count(),
    ensures
        codec.tag_decoding(codec.tag_encoding(variant) + rest) == Decoded::success(
            variant as usize,
            codec.tag_encoding(variant).len(),
        ),
{
    match codec {
        CodecView::Record { .. } => {},
        CodecView::Union { repr, variants, .. } => {
            let value = variants[variant].discriminant.value();
            if repr.signed() {
                lemma_signed_round_trip(value, repr.width());
            }
            lemma_fixed_round_trip(repr.bits(value), repr.width(), rest);
            lemma_lookup_own(codec, variant);
        },
    }
}

/// Telling the variant never consumes more bytes than there are.
pub proof fn lemma_tag_no_over_read(codec: CodecView, input: Seq<u8>)
    ensures
        codec.tag_decoding(input).consumed <= input.len(),
{
}

/// A value of a composite type that was encoded is decoded again: first its
/// variant, then, from the bytes that follow, its fields; and the bytes
/// consumed are those of the encoding.
pub proof fn lemma_composite_round_trip<L: FieldList>(
    codec: CodecView,
    variant: int,
    fields: L::V,
    rest: Seq<u8>,
)
    requires
        codec.wf(),
        0 <= variant < codec.variant_count(),
        L::valid(fields),
    ensures
        codec.tag_decoding(codec.encoding::<L>(variant, fields) + rest) == Decoded::success(
            variant as usize,
            codec.tag_encoding(variant).len(),
        ),
        L::decoding(
            (codec.encoding::<L>(variant, fields) + rest).skip(
                codec.tag_encoding(variant).len() as int,
            ),
        ) == Decoded::success(fields, L::encoding(fields).len()),
        codec.encoding::<L>(variant, fields).len() == codec.tag_encoding(variant).len()
            + L::encoding(fields).len(),
{
    let tag = codec.tag_encoding(variant);
    let input = codec.encoding::<L>(variant, fields) + rest;
    assert(input == tag + (L::encoding(fields) + rest));
    lemma_tag_round_trip(codec, variant, L::encoding(fields) + rest);
    assert(input.skip(tag.len() as int) == L::encoding(fields) + rest);
    L::lemma_round_trip(fields, rest);
}

/// A discriminant that no variant has is rejected, and only the bytes of
/// the discriminant are consumed.
pub proof fn lemma_unknown_discriminant(codec: CodecView, input: Seq<u8>)
    requires
        codec is Union,
        input.len() >= codec->repr.width(),
        forall|index: int|
            0 <= index < codec->variants.len() ==> codec->repr.bits(
                (#[trigger] codec->variants[index]).discriminant.value(),
            ) != decode_fixed(input, codec->repr.width()).outcome->Ok_0,
    ensures
        codec.tag_decoding(input) == Decoded::<usize>::failure(
            Error::InvalidEnumVariant,
            codec->repr.width(),
        ),
{
    let bits = decode_fixed(input, codec->repr.width()).outcome->Ok_0;
    lemma_lookup_finds(codec->variants, codec->repr, bits);
}

/// The codec that a schema of a record gives: the record must have a field.
pub open spec fn derived_struct(input: InputView) -> Result<CodecView, SchemaError> {
    match input.data {
        DataView::Struct(fields) => if fields.arity() == 0 {
            Err(SchemaError::EmptyRecord)
        } else {
            Ok(CodecView::Record { ident: input.ident, fields })
        },
        _ => Err(SchemaError::ExpectedStruct),
    }
}

/// The codec that a schema of a tagged union gives: the union must name the
/// integer type of its discriminant, the type must hold every discriminant,
/// and no two variants may share one.
pub open spec fn derived_enum(input: InputView) -> Result<CodecView, SchemaError> {
    match input.data {
        DataView::Enum(variants) => match input.repr {
            Some(repr) => if !all_in_range(variants, repr) {
                Err(SchemaError::DiscriminantOutOfRange)
            } else if !all_distinct(variants) {
                Err(SchemaError::DuplicateDiscriminant)
            } else {
                Ok(CodecView::Union { ident: input.ident, repr, variants })
            },
            None => Err(SchemaError::MissingRepr),
        },
        _ => Err(SchemaError::ExpectedEnum),
    }
}

/// The codec that a schema gives.
pub open spec fn derived(input: InputView) -> Result<CodecView, SchemaError> {
    match input.data {
        DataView::Struct(_) => derived_struct(input),
        DataView::Enum(_) => derived_enum(input),
        DataView::Unknown => Err(SchemaError::Unsupported),
    }
}

/// Derives the codec of a record from its schema.
pub fn impl_struct(input: TransmittableInput) -> (result: Result<Codec, SchemaError>)
    ensures
        view_of(result) == derived_struct(input@),
        result matches Ok(codec) ==> codec@.wf(),
{
    let TransmittableInput { ident, repr, data } = input;
    match data {
        Data::Struct(fields) => {
            if fields.arity() == 0 {
                Err(SchemaError::EmptyRecord)
            } else {
                Ok(Codec { ident, shape: Shape::Record { fields } })
            }
        },
        _ => Err(SchemaError::ExpectedStruct),
    }
}

/// Derives the codec of a tagged union from its schema.
pub fn impl_enum(input: TransmittableInput) -> (result: Result<Codec, SchemaError>)
    ensures
        view_of(result) == derived_enum(input@),
        result matches Ok(codec) ==> codec@.wf(),
{
    let TransmittableInput { ident, repr, data } = input;
    let variants = match data {
        Data::Enum(variants) => variants,
        _ => {
            return Err(SchemaError::ExpectedEnum);
        },
    };
    let repr = match repr {
        Some(repr) => repr,
        None => {
            return Err(SchemaError::MissingRepr);
        },
    };
    let ghost views = variant_views(variants@);
    let mut tags: Vec<u128> = Vec::new();
    let mut index: usize = 0;
    while index < variants.len()
        invariant
            index <= variants.len(),
            input@.data == DataView::Enum(views),
            input@.repr == Some(repr),
            views == variant_views(variants@),
            tags_match(views.take(index as int), repr, tags@),
            all_in_range(views.take(index as int), repr),
        decreases variants.len() - index,
    {
        match repr.tag(&variants[index].discriminant) {
            Some(tag) => {
                tags.push(tag);
            },
            None => {
                assert(!repr.holds(views[index as int].discriminant.value()));
                return Err(SchemaError::DiscriminantOutOfRange);
            },
        }
        index = index + 1;
    }
    assert(views.take(index as int) == views);
    let mut second: usize = 0;
    while second < variants.len()
        invariant
            second <= variants.len(),
            input@.data == DataView::Enum(views),
            input@.repr == Some(repr),
            views == variant_views(variants@),
            tags_match(views, repr, tags@),
            all_in_range(views, repr),
            all_distinct(views.take(second as int)),
        decreases variants.len() - second,
    {
        let mut first: usize = 0;
        while first < second
            invariant
                first <= second < variants.len(),
                input@.data == DataView::Enum(views),
                input@.repr == Some(repr),
                views == variant_views(variants@),
                tags_match(views, repr, tags@),
                all_in_range(views, repr),
                all_distinct(views.take(second as int)),
                forall|before: int|
                    0 <= before < first ==> (#[trigger] views[before]).discriminant.value()
                        != views[second as int].discriminant.value(),
            decreases second - first,
        {
            if tags[first] == tags[second] {
                proof {
                    lemma_bits_injective(
                        repr,
                        views[first as int].discriminant.value(),
                        views[second as int].discriminant.value(),
                    );
                }
                return Err(SchemaError::DuplicateDiscriminant);
            }
            first = first + 1;
        }
        proof {
            let next = views.take(second + 1);
            assert forall|a: int, b: int| 0 <= a < b < next.len() implies (#[trigger] next[a]).discriminant.value()
                != (#[trigger] next[b]).discriminant.value() by {
                if b < second {
                    assert(views.take(second as int)[a] == next[a]);
                    assert(views.take(second as int)[b] == next[b]);
                } else {
                    assert(next[a] == views[a]);
                }
            }
        }
        second = second + 1;
    }
    assert(views.take(second as int) == views);
    Ok(Codec { ident, shape: Shape::Union { repr, variants, tags } })
}

/// Derives the codec of a composite type from its schema: a record or a
/// tagged union, nothing else.
pub fn transmittable_derive(input: TransmittableInput) -> (result: Result<Codec, SchemaError>)
    ensures
        view_of(result) == derived(input@),
        result matches Ok(codec) ==> codec@.wf(),
{
    match input.data {
        Data::Struct(_) => impl_struct(input),
        Data::Enum(_) => impl_enum(input),
        Data::Unknown => Err(SchemaError::Unsupported),
    }
}

} // verus!
