//! The work of one worker: the records of one chunk, filtered by barcode.

use crate::barcodes::BarcodeSet;
use crate::error::RunError;
use crate::record::aux_fields;
use crate::record::aux_intact;
use crate::record::field_name;
use crate::record::get_record_tag;
use crate::record::record_core;
use crate::record::record_views;
use crate::record::rewrite_tag;
use crate::record::storable;
use crate::record::tag_text;
use crate::record::with_text;
use crate::record::without_tag;
use crate::record::AuxField;
use crate::record::RecordView;
use crate::substitute::replaced;
use rust_htslib::bam::Record;
use vstd::prelude::*;
use vstd::string::StringExecFns;
use vstd::utf8::encode_utf8;

verus! {

/// What one worker is told to do: which chunk of the file is its own and
/// which records of it to keep.
pub struct SliceArgs<'a> {
    /// The allow-list, shared by all workers.
    pub cell_barcodes: &'a BarcodeSet,
    /// The number of the chunk, counted from 0. The outputs of the workers
    /// are put together in the order of these numbers.
    pub i: usize,
    /// The tag whose value is the barcode.
    pub bam_tag: String,
    /// Where the chunk starts; `None` is the beginning of the file.
    pub virtual_start: Option<i64>,
    /// Where the chunk stops; `None` is the end of the file.
    pub virtual_stop: Option<i64>,
    /// What to replace in a barcode before it is looked for.
    pub to_replace: Option<String>,
    /// What to put in its place.
    pub replacement: Option<String>,
}

/// The rule by which records are kept: the tag to read, what to replace in
/// its value, and the barcodes that are wanted.
pub struct Rule {
    /// The tag whose text is the barcode.
    pub tag: Seq<u8>,
    /// What to replace in the text, and by what; `None` if nothing.
    pub substitution: Option<(Seq<u8>, Seq<u8>)>,
    /// The barcodes of the allow-list.
    pub allowed: Set<Seq<u8>>,
}

/// What is to be replaced by what. Nothing is replaced unless both strings
/// are given.
pub open spec fn substitution_of(to_replace: Option<String>, replacement: Option<String>) -> Option<
    (Seq<u8>, Seq<u8>),
> {
    match (to_replace, replacement) {
        (Some(find), Some(with)) => Some((encode_utf8(find@), encode_utf8(with@))),
        _ => None,
    }
}

/// The character that stands for the digit `d`.
pub open spec fn digit_char(d: int) -> char {
    if d == 0 {
        '0'
    } else if d == 1 {
        '1'
    } else if d == 2 {
        '2'
    } else if d == 3 {
        '3'
    } else if d == 4 {
        '4'
    } else if d == 5 {
        '5'
    } else if d == 6 {
        '6'
    } else if d == 7 {
        '7'
    } else if d == 8 {
        '8'
    } else {
        '9'
    }
}

/// `n` written in decimal digits.
pub open spec fn decimal(n: nat) -> Seq<char>
    decreases n,
{
    if n < 10 {
        seq![digit_char(n as int)]
    } else {
        decimal(n / 10).push(digit_char((n % 10) as int))
    }
}

/// The digit `d` as text.
fn digit_text(d: usize) -> (text: &'static str)
    requires
        d < 10,
    ensures
        text@ == seq![digit_char(d as int)],
{
    proof {
        reveal_strlit("0");
        reveal_strlit("1");
        reveal_strlit("2");
        reveal_strlit("3");
        reveal_strlit("4");
        reveal_strlit("5");
        reveal_strlit("6");
        reveal_strlit("7");
        reveal_strlit("8");
        reveal_strlit("9");
    }
    let text = if d == 0 {
        "0"
    } else if d == 1 {
        "1"
    } else if d == 2 {
        "2"
    } else if d == 3 {
        "3"
    } else if d == 4 {
        "4"
    } else if d == 5 {
        "5"
    } else if d == 6 {
        "6"
    } else if d == 7 {
        "7"
    } else if d == 8 {
        "8"
    } else {
        "9"
    };
    assert(text@ =~= seq![digit_char(d as int)]);
    text
}

/// `n` written in decimal digits.
fn decimal_text(n: usize) -> (text: String)
    ensures
        text@ == decimal(n as nat),
    decreases n,
{
    if n < 10 {
        String::from_str(digit_text(n))
    } else {
        let mut text = decimal_text(n / 10);
        text.append(digit_text(n % 10));
        text
    }
}

impl<'a> SliceArgs<'a> {
    /// The rule that the worker goes by.
    pub open spec fn rule(&self) -> Rule {
        Rule {
            tag: encode_utf8(self.bam_tag@),
            substitution: substitution_of(self.to_replace, self.replacement),
            allowed: self.cell_barcodes@,
        }
    }

    /// The name of the file that the worker writes: the number of its chunk
    /// in decimal digits, and `.bam`.
    pub fn output_name(&self) -> (name: String)
        ensures
            name@ == decimal(self.i as nat) + seq!['.', 'b', 'a', 'm'],
    {
        proof {
            reveal_strlit(".bam");
        }
        let mut name = decimal_text(self.i);
        name.append(".bam");
        assert(".bam"@ =~= seq!['.', 'b', 'a', 'm']);
        name
    }
}

/// The record's tag is rewritten: a substitution is asked for and the record
/// has text under the tag.
pub open spec fn rewrites(fields: Seq<AuxField>, rule: Rule) -> bool {
    rule.substitution is Some && tag_text(fields, rule.tag) is Some
}

/// The barcode that is looked for where the tag reads `value`.
pub open spec fn barcode_of(value: Seq<u8>, rule: Rule) -> Seq<u8> {
    match rule.substitution {
        Some((find, with)) => replaced(value, find, with),
        None => value,
    }
}

/// The text that the tag of a record reads once the rule was applied, for a
/// record that has text under the tag.
pub open spec fn new_text(fields: Seq<AuxField>, rule: Rule) -> Seq<u8> {
    barcode_of(tag_text(fields, rule.tag)->0, rule)
}

/// The record is kept: it has text under the tag, and that text, after the
/// substitution if one is asked for, is a wanted barcode.
pub open spec fn keeps(fields: Seq<AuxField>, rule: Rule) -> bool {
    match tag_text(fields, rule.tag) {
        Some(value) => rule.allowed.contains(barcode_of(value, rule)),
        None => false,
    }
}

/// The fields of a record once the rule was applied to it.
pub open spec fn fields_after(fields: Seq<AuxField>, rule: Rule) -> Seq<AuxField> {
    match tag_text(fields, rule.tag) {
        Some(value) if rule.substitution is Some => with_text(
            fields,
            rule.tag,
            barcode_of(value, rule),
        ),
        _ => fields,
    }
}

/// What becomes of a record: `None` if it is dropped, else the record as it
/// is written.
pub open spec fn outcome(record: RecordView, rule: Rule) -> Option<RecordView> {
    if keeps(record.fields, rule) {
        Some(RecordView { core: record.core, fields: fields_after(record.fields, rule) })
    } else {
        None
    }
}

/// The records that are written, of `records`: those kept, in their order,
/// each with the rule applied.
pub open spec fn retained(records: Seq<RecordView>, rule: Rule) -> Seq<RecordView> {
    records.filter_map(|record: RecordView| outcome(record, rule))
}

/// The rule can be applied to the record as the contracts describe: either
/// nothing is rewritten in it, or its auxiliary data is intact.
pub open spec fn appliable(rec: Record, rule: Rule) -> bool {
    aux_intact(rec) || !rewrites(aux_fields(rec), rule)
}

/// Applies the rule of `args` to one record and says whether it is kept.
///
/// The record is kept if it has text under the tag and that text is in the
/// allow-list. Where a substitution is asked for and the record has text
/// under the tag, the text is rewritten in the record first, whether or not
/// the record is then kept, and it is the new text that is looked for.
/// Nothing fails unless a tag is rewritten.
pub fn filter_record(args: &SliceArgs, rec: &mut Record) -> (kept: Result<bool, RunError>)
    ensures
        record_core(*final(rec)) == record_core(*old(rec)),
        aux_intact(*old(rec)) ==> aux_intact(*final(rec)),
        !rewrites(aux_fields(*old(rec)), args.rule()) ==> kept is Ok && *final(rec) == *old(rec),
        kept matches Ok(keep) ==> keep == keeps(aux_fields(*old(rec)), args.rule()),
        kept is Ok && aux_intact(*old(rec)) ==> aux_fields(*final(rec)) == fields_after(
            aux_fields(*old(rec)),
            args.rule(),
        ),
        kept matches Err(e) ==> e == RunError::TagValue || e == RunError::TagNotStored,
        kept == Err::<bool, RunError>(RunError::TagValue) <==> rewrites(
            aux_fields(*old(rec)),
            args.rule(),
        ) && !storable(new_text(aux_fields(*old(rec)), args.rule())),
        kept == Err::<bool, RunError>(RunError::TagValue) ==> *final(rec) == *old(rec),
        kept == Err::<bool, RunError>(RunError::TagNotStored) ==> aux_fields(*final(rec))
            == without_tag(aux_fields(*old(rec)), field_name(args.rule().tag)),
{
    let value = match get_record_tag(rec, args.bam_tag.as_str()) {
        Some(value) => value,
        None => {
            return Ok(false);
        },
    };
    match (&args.to_replace, &args.replacement) {
        (Some(to_replace), Some(replacement)) => {
            match rewrite_tag(
                rec,
                args.bam_tag.as_str().as_bytes(),
                value.as_slice(),
                to_replace.as_str().as_bytes(),
                replacement.as_str().as_bytes(),
            ) {
                Ok(text) => Ok(args.cell_barcodes.contains(text.as_slice())),
                Err(e) => Err(e),
            }
        },
        _ => Ok(args.cell_barcodes.contains(value.as_slice())),
    }
}

/// Filters the records of one chunk.
///
/// `records` are the records of the chunk in the order in which they were
/// read. The result holds those that `filter_record` keeps, in the same
/// order, each as `filter_record` left it. The first record whose tag cannot
/// be rewritten ends the work with its error, and nothing is handed back.
pub fn read_bam_slice(args: &SliceArgs, records: Vec<Record>) -> (written: Result<
    Vec<Record>,
    RunError,
>)
    ensures
        (forall|i: int|
            0 <= i < records@.len() ==> !rewrites(aux_fields(#[trigger] records@[i]), args.rule()))
            ==> written is Ok,
        written matches Ok(out) ==> (forall|i: int|
            0 <= i < records@.len() ==> appliable(#[trigger] records@[i], args.rule()))
            ==> record_views(out@) == retained(record_views(records@), args.rule()),
        written is Ok ==> forall|i: int|
            0 <= i < records@.len() && rewrites(aux_fields(#[trigger] records@[i]), args.rule())
                ==> storable(new_text(aux_fields(records@[i]), args.rule())),
        written matches Err(e) ==> exists|i: int|
            {
                &&& 0 <= i < records@.len()
                &&& rewrites(aux_fields(#[trigger] records@[i]), args.rule())
                &&& e == RunError::TagValue <==> !storable(
                    new_text(aux_fields(records@[i]), args.rule()),
                )
                &&& e == RunError::TagValue || e == RunError::TagNotStored
            },
{
    let ghost source = records@;
    let ghost rule = args.rule();
    let mut out: Vec<Record> = Vec::new();
    for rec in it: records
        invariant
            rule == args.rule(),
            it.seq() == source,
            forall|i: int|
                0 <= i < it.index() && rewrites(aux_fields(#[trigger] source[i]), rule)
                    ==> storable(new_text(aux_fields(source[i]), rule)),
            (forall|i: int| 0 <= i < source.len() ==> appliable(#[trigger] source[i], rule))
                ==> record_views(out@) == retained(record_views(source.take(it.index())), rule),
    {
        let ghost before = rec;
        let ghost done = out@;
        let ghost at = it.index();
        let mut rec = rec;
        match filter_record(args, &mut rec) {
            Err(e) => {
                assert(before == source[at]);
                return Err(e);
            },
            Ok(keep) => {
                if keep {
                    out.push(rec);
                }
                proof {
                    assert(before == source[at]);
                    if forall|i: int|
                        0 <= i < source.len() ==> appliable(#[trigger] source[i], rule) {
                        assert(appliable(source[at], rule));
                        let views = record_views(source);
                        let each = |record: RecordView| outcome(record, rule);
                        views.lemma_filter_map_take_succ(each, at);
                        assert(views.take(at) =~= record_views(source.take(at)));
                        assert(views.take(at + 1) =~= record_views(source.take(at + 1)));
                        if keep {
                            assert(record_views(out@) =~= record_views(done).push(
                                each(views[at])->0,
                            ));
                        }
                    }
                }
            },
        }
    }
    proof {
        assert(source.take(source.len() as int) =~= source);
    }
    Ok(out)
}

} // verus!
