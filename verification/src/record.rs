//! Alignment records and the one thing this library does to them: reading a
//! tag and rewriting its value.
//!
//! A record is a `rust_htslib::bam::Record`. It is opaque here. What the
//! contracts say of a record they say of its auxiliary fields, each a two-byte
//! tag with a value, and of the rest of it, which nothing here changes.

use crate::error::RunError;
use crate::substitute::replace_all;
use crate::substitute::replaced;
use rust_htslib::bam::record::Aux;
use rust_htslib::bam::Record;
use vstd::prelude::*;
use vstd::string::StringSliceAdditionalSpecFns;
use vstd::utf8::valid_utf8;

verus! {

/// An alignment record of `rust_htslib`.
#[verifier::external_type_specification]
#[verifier::external_body]
pub struct ExRecord(rust_htslib::bam::Record);

/// The error type of `rust_htslib`.
#[verifier::external_type_specification]
#[verifier::external_body]
pub struct ExHtsError(rust_htslib::errors::Error);

/// An auxiliary field as the contracts see it: its two-byte tag, and its
/// value if the field is one of text (type `Z` or `H`, holding UTF-8).
pub type AuxField = (Seq<u8>, Option<Seq<u8>>);

/// The auxiliary fields of `rec` in the order in which the record stores
/// them, as far as htslib can walk them: up to the first field, if there is
/// one, that is cut short or of no known type.
pub uninterp spec fn aux_fields(rec: Record) -> Seq<(Seq<u8>, Option<Seq<u8>>)>;

/// All of `rec` that is not an auxiliary field: name, flags, position,
/// CIGAR, sequence, qualities and the other fixed parts.
pub uninterp spec fn record_core(rec: Record) -> Seq<u8>;

/// The auxiliary data of `rec` is nothing but whole fields of known types, so
/// that `aux_fields` are all of it.
pub uninterp spec fn aux_intact(rec: Record) -> bool;

/// What a record is to the contracts.
pub struct RecordView {
    /// All of the record but its auxiliary fields.
    pub core: Seq<u8>,
    /// Its auxiliary fields, in stored order.
    pub fields: Seq<AuxField>,
}

/// The view of `rec`.
pub open spec fn record_view(rec: Record) -> RecordView {
    RecordView { core: record_core(rec), fields: aux_fields(rec) }
}

/// The views of `records`, one for one.
pub open spec fn record_views(records: Seq<Record>) -> Seq<RecordView> {
    records.map_values(|rec: Record| record_view(rec))
}

/// A tag can name a field if it has the two bytes of a field's tag and no
/// zero byte.
pub open spec fn names_field(tag: Seq<u8>) -> bool {
    &&& tag.len() >= 2
    &&& forall|i: int| 0 <= i < tag.len() ==> tag[i] != 0
}

/// The field that `tag` names: only its first two bytes count.
pub open spec fn field_name(tag: Seq<u8>) -> Seq<u8> {
    tag.take(2)
}

/// The position of the first field with the tag `name`, or the number of
/// fields if none has it.
pub open spec fn tag_position(fields: Seq<AuxField>, name: Seq<u8>) -> int
    decreases fields.len(),
{
    if fields.len() == 0 {
        0
    } else if fields[0].0 == name {
        0
    } else {
        1 + tag_position(fields.skip(1), name)
    }
}

/// Some field has the tag `name`.
pub open spec fn has_tag(fields: Seq<AuxField>, name: Seq<u8>) -> bool {
    tag_position(fields, name) < fields.len()
}

/// The text in the first field with the tag `name`. `None` if no field has
/// the tag or the first that has it holds no text.
pub open spec fn text_of(fields: Seq<AuxField>, name: Seq<u8>) -> Option<Seq<u8>> {
    if has_tag(fields, name) {
        fields[tag_position(fields, name)].1
    } else {
        None
    }
}

/// `fields` without the first field that has the tag `name`.
pub open spec fn without_tag(fields: Seq<AuxField>, name: Seq<u8>) -> Seq<AuxField> {
    if has_tag(fields, name) {
        fields.remove(tag_position(fields, name))
    } else {
        fields
    }
}

/// The text that a lookup of `tag` gives.
pub open spec fn tag_text(fields: Seq<AuxField>, tag: Seq<u8>) -> Option<Seq<u8>> {
    if names_field(tag) {
        text_of(fields, field_name(tag))
    } else {
        None
    }
}

/// A value that a text field can hold: UTF-8 without a zero byte, and short
/// enough for its length to be written down.
pub open spec fn storable(value: Seq<u8>) -> bool {
    &&& valid_utf8(value)
    &&& forall|i: int| 0 <= i < value.len() ==> value[i] != 0
    &&& value.len() < i32::MAX
}

/// `fields` after the text of `tag` was replaced by `value`: the field that
/// held the text is gone and a field with the new text stands at the end.
pub open spec fn with_text(fields: Seq<AuxField>, tag: Seq<u8>, value: Seq<u8>) -> Seq<AuxField> {
    without_tag(fields, field_name(tag)).push((field_name(tag), Some(value)))
}

/// The bytes of an optional vector.
pub open spec fn bytes_of(value: Option<Vec<u8>>) -> Option<Seq<u8>> {
    match value {
        Some(bytes) => Some(bytes@),
        None => None,
    }
}

/// `Record::aux` of `rust_htslib`, for a field of text.
///
/// The call looks for the first field whose tag is the first two bytes of
/// `tag`. It gives the field's bytes if the field is of type `Z` or `H` and
/// holds UTF-8, and `None` if there is no such field, if it is of another
/// type, or if its bytes are not UTF-8.
#[verifier::external_body]
fn aux_text(rec: &Record, tag: &[u8]) -> (text: Option<Vec<u8>>)
    requires
        names_field(tag@),
    ensures
        bytes_of(text) == text_of(aux_fields(*rec), field_name(tag@)),
{
    match rec.aux(tag) {
        Ok(Aux::String(value)) => Some(value.as_bytes().to_vec()),
        _ => None,
    }
}

/// `Record::remove_aux` of `rust_htslib`.
///
/// The call takes out the first field whose tag is the first two bytes of
/// `tag` and leaves everything else in place. It fails, and changes nothing,
/// if no field has that tag.
#[verifier::external_body]
fn remove_aux(rec: &mut Record, tag: &[u8]) -> (removed: Result<(), rust_htslib::errors::Error>)
    requires
        names_field(tag@),
    ensures
        removed is Ok <==> has_tag(aux_fields(*old(rec)), field_name(tag@)),
        aux_fields(*final(rec)) == without_tag(aux_fields(*old(rec)), field_name(tag@)),
        record_core(*final(rec)) == record_core(*old(rec)),
        aux_intact(*old(rec)) ==> aux_intact(*final(rec)),
{
    rec.remove_aux(tag)
}

/// `Record::push_aux` of `rust_htslib`, with a value of text.
///
/// Where the call succeeds, it has added a field of type `Z` behind the
/// record's auxiliary data: its tag the first two bytes of `tag`, its value
/// `value`. In a record with intact auxiliary data that is a new last field.
/// Where the call fails, the record is as it was. It fails if a field with
/// that tag can be read from the record, if `value` holds a zero byte or if
/// the record cannot grow.
#[verifier::external_body]
fn push_aux_text(rec: &mut Record, tag: &[u8], value: &str) -> (pushed: Result<
    (),
    rust_htslib::errors::Error,
>)
    requires
        names_field(tag@),
        value.spec_bytes().len() < i32::MAX,
    ensures
        pushed is Err ==> aux_fields(*final(rec)) == aux_fields(*old(rec)),
        pushed is Ok && aux_intact(*old(rec)) ==> aux_fields(*final(rec)) == aux_fields(
            *old(rec),
        ).push((field_name(tag@), Some(value.spec_bytes()))),
        record_core(*final(rec)) == record_core(*old(rec)),
        aux_intact(*old(rec)) ==> aux_intact(*final(rec)),
{
    rec.push_aux(tag, Aux::String(value))
}

/// `std::str::from_utf8`: the bytes as text, if they are UTF-8.
#[verifier::external_body]
fn as_text(bytes: &[u8]) -> (text: Option<&str>)
    ensures
        text is Some <==> valid_utf8(bytes@),
        text matches Some(s) ==> s.spec_bytes() == bytes@,
{
    std::str::from_utf8(bytes).ok()
}

/// Whether `tag` can name a field.
fn is_field_name(tag: &[u8]) -> (named: bool)
    ensures
        named == names_field(tag@),
{
    if tag.len() < 2 {
        return false;
    }
    !has_zero(tag)
}

/// Whether one of `bytes` is zero.
fn has_zero(bytes: &[u8]) -> (found: bool)
    ensures
        found == exists|i: int| 0 <= i < bytes@.len() && bytes@[i] == 0,
{
    let mut i: usize = 0;
    while i < bytes.len()
        invariant
            0 <= i <= bytes@.len(),
            forall|j: int| 0 <= j < i ==> bytes@[j] != 0,
        decreases bytes@.len() - i,
    {
        if bytes[i] == 0 {
            return true;
        }
        i += 1;
    }
    false
}

/// The text in the field of `rec` that `bam_tag` names.
///
/// Of `bam_tag` only the first two bytes are looked up, and of the fields
/// that carry them only the first. `None` says that there is no such field,
/// or that it holds no text: a number, an array, or bytes that are not
/// UTF-8. A tag of fewer than two bytes, or with a zero byte, names no field.
pub fn get_record_tag(rec: &Record, bam_tag: &str) -> (value: Option<Vec<u8>>)
    ensures
        bytes_of(value) == tag_text(aux_fields(*rec), bam_tag.spec_bytes()),
{
    let tag = bam_tag.as_bytes();
    if !is_field_name(tag) {
        return None;
    }
    aux_text(rec, tag)
}

/// What the rewriting of a tag ends with, once the record has answered the
/// attempt to store the new field: done if it took the field, `TagNotStored`
/// if it did not.
pub fn tag_write_outcome(pushed: Result<(), rust_htslib::errors::Error>) -> (done: Result<
    (),
    RunError,
>)
    ensures
        pushed is Ok ==> done is Ok,
        pushed is Err ==> done == Err::<(), RunError>(RunError::TagNotStored),
{
    match pushed {
        Ok(_) => Ok(()),
        Err(_) => Err(RunError::TagNotStored),
    }
}

/// Replaces, in the text `value` that the field `tag` of `rec` holds, every
/// `to_replace` by `replacement`, and stores the result in place of the old
/// field. Gives the new text.
pub(crate) fn rewrite_tag(
    rec: &mut Record,
    tag: &[u8],
    value: &[u8],
    to_replace: &[u8],
    replacement: &[u8],
) -> (done: Result<Vec<u8>, RunError>)
    requires
        tag_text(aux_fields(*old(rec)), tag@) == Some(value@),
    ensures
        record_core(*final(rec)) == record_core(*old(rec)),
        aux_intact(*old(rec)) ==> aux_intact(*final(rec)),
        done matches Ok(text) ==> text@ == replaced(value@, to_replace@, replacement@),
        !storable(replaced(value@, to_replace@, replacement@)) ==> done == Err::<Vec<u8>, RunError>(
            RunError::TagValue,
        ),
        done matches Err(e) ==> e == RunError::TagValue || e == RunError::TagNotStored,
        done == Err::<Vec<u8>, RunError>(RunError::TagValue) ==> *final(rec) == *old(rec)
            && !storable(replaced(value@, to_replace@, replacement@)),
        done == Err::<Vec<u8>, RunError>(RunError::TagNotStored) ==> aux_fields(*final(rec))
            == without_tag(aux_fields(*old(rec)), field_name(tag@)),
        done is Ok && aux_intact(*old(rec)) ==> aux_fields(*final(rec)) == with_text(
            aux_fields(*old(rec)),
            tag@,
            replaced(value@, to_replace@, replacement@),
        ),
{
    let text = replace_all(value, to_replace, replacement);
    if has_zero(text.as_slice()) || text.len() >= i32::MAX as usize {
        return Err(RunError::TagValue);
    }
    match as_text(text.as_slice()) {
        None => Err(RunError::TagValue),
        Some(new_text) => {
            match remove_aux(rec, tag) {
                Err(_) => Err(RunError::TagNotFound),
                Ok(_) => {
                    match tag_write_outcome(push_aux_text(rec, tag, new_text)) {
                        Ok(_) => Ok(text),
                        Err(e) => Err(e),
                    }
                },
            }
        },
    }
}

/// Replaces every `to_replace` by `replacement` in the text that the field
/// `bam_tag` of `rec` holds.
///
/// The field is taken out of the record and a field with the same tag and
/// the new text is added at the end. The record stays as it was if it has no
/// text under the tag (`TagNotFound`) or if the new text cannot be stored
/// (`TagValue`). If the record does not take the new field, as it does not
/// where it holds the tag twice, the old one is gone from it
/// (`TagNotStored`).
pub fn substitute_text_in_tag(
    rec: &mut Record,
    bam_tag: &str,
    to_replace: &str,
    replacement: &str,
) -> (done: Result<(), RunError>)
    ensures
        record_core(*final(rec)) == record_core(*old(rec)),
        aux_intact(*old(rec)) ==> aux_intact(*final(rec)),
        match tag_text(aux_fields(*old(rec)), bam_tag.spec_bytes()) {
            None => done == Err::<(), RunError>(RunError::TagNotFound) && *final(rec) == *old(rec),
            Some(value) => {
                let text = replaced(value, to_replace.spec_bytes(), replacement.spec_bytes());
                if storable(text) {
                    &&& done is Ok || done == Err::<(), RunError>(RunError::TagNotStored)
                    &&& done is Err ==> aux_fields(*final(rec)) == without_tag(
                        aux_fields(*old(rec)),
                        field_name(bam_tag.spec_bytes()),
                    )
                    &&& done is Ok && aux_intact(*old(rec)) ==> aux_fields(*final(rec))
                        == with_text(aux_fields(*old(rec)), bam_tag.spec_bytes(), text)
                } else {
                    done == Err::<(), RunError>(RunError::TagValue) && *final(rec) == *old(rec)
                }
            },
        },
{
    let value = get_record_tag(rec, bam_tag);
    match value {
        None => Err(RunError::TagNotFound),
        Some(value) => {
            match rewrite_tag(
                rec,
                bam_tag.as_bytes(),
                value.as_slice(),
                to_replace.as_bytes(),
                replacement.as_bytes(),
            ) {
                Ok(_) => Ok(()),
                Err(e) => Err(e),
            }
        },
    }
}

} // verus!
