//! Evaluation datasets: JSON text with one record per sample.

use crate::binary64::Binary64;
use crate::eval::{viewed, SampleView, ScoredSample};
use crate::json::{
    elements, is_float, is_object, json_tree, json_trees, member, number, number_display,
    float_text, parse_text, parsed_text, text_in, truth, unexpected_string, unexpected_text, Json,
    JsonNumber,
};
use crate::decimal::decimal;
use crate::text::joined;
use vstd::prelude::*;
use vstd::string::StringExecFns;

verus! {

/// What is wrong with a record. Where something stands in the wrong place, with
/// the words for what was found there.
#[derive(Debug, Clone, PartialEq, Eq)]
pub enum RecordFault {
    /// A record is not an object.
    NotARecord(String),
    NoConfidence,
    NoCorrect,
    /// A confidence is not a number.
    BadConfidence(String),
    /// A correctness is not a truth value.
    BadCorrect(String),
}

/// What a [`RecordFault`] says.
pub ghost enum FaultView {
    NotARecord(Seq<char>),
    NoConfidence,
    NoCorrect,
    BadConfidence(Seq<char>),
    BadCorrect(Seq<char>),
}

impl View for RecordFault {
    type V = FaultView;

    open spec fn view(&self) -> FaultView {
        match *self {
            RecordFault::NotARecord(found) => FaultView::NotARecord(found@),
            RecordFault::NoConfidence => FaultView::NoConfidence,
            RecordFault::NoCorrect => FaultView::NoCorrect,
            RecordFault::BadConfidence(found) => FaultView::BadConfidence(found@),
            RecordFault::BadCorrect(found) => FaultView::BadCorrect(found@),
        }
    }
}

/// The words for a document that stands where something else is expected.
pub open spec fn found(tree: Json) -> Seq<char> {
    match tree {
        Json::Null => "null"@,
        Json::Bool(b) => if b {
            "boolean `true`"@
        } else {
            "boolean `false`"@
        },
        Json::Number(n) => if n is Float {
            "floating point `"@ + n.text() + "`"@
        } else {
            "integer `"@ + n.text() + "`"@
        },
        Json::Text(text) => unexpected_text(text),
        Json::Array(_) => "sequence"@,
        Json::Object(_) => "map"@,
    }
}

/// The sample of one record: an object with the two fields, among others or
/// not. A field of the wrong type is a fault before a missing one.
pub open spec fn record(tree: Json) -> Result<SampleView, FaultView> {
    if !(tree is Object) {
        Err(FaultView::NotARecord(found(tree)))
    } else {
        match (tree.member("confidence"@), tree.member("correct"@)) {
            (Some(confidence), Some(correct)) => match (confidence.number(), correct.truth()) {
                (None, _) => Err(FaultView::BadConfidence(found(confidence))),
                (_, None) => Err(FaultView::BadCorrect(found(correct))),
                (Some(confidence), Some(correct)) => Ok(SampleView { confidence, correct }),
            },
            (Some(confidence), None) => if confidence.number() is None {
                Err(FaultView::BadConfidence(found(confidence)))
            } else {
                Err(FaultView::NoCorrect)
            },
            (None, Some(correct)) => if correct.truth() is None {
                Err(FaultView::BadCorrect(found(correct)))
            } else {
                Err(FaultView::NoConfidence)
            },
            (None, None) => Err(FaultView::NoConfidence),
        }
    }
}

/// The samples of all records in order, or the fault of the first bad one.
pub open spec fn records(items: Seq<Json>) -> Result<Seq<SampleView>, FaultView>
    decreases items.len(),
{
    if items.len() == 0 {
        Ok(Seq::empty())
    } else {
        match records(items.drop_last()) {
            Err(fault) => Err(fault),
            Ok(samples) => match record(items.last()) {
                Err(fault) => Err(fault),
                Ok(sample) => Ok(samples.push(sample)),
            },
        }
    }
}

/// The part of a document that holds the records: the member `results` of an
/// object, or the document itself where it is a list.
pub open spec fn records_part(tree: Json) -> Option<Json> {
    match tree {
        Json::Object(_) => tree.member("results"@),
        Json::Array(_) => Some(tree),
        _ => None,
    }
}

/// The text that says a document has no records part.
pub open spec fn shape_message() -> Seq<char> {
    "expected an object with a \"results\" array or a bare [...] array of {\"confidence\": <f64>, \"correct\": <bool>} records"@
}

/// What a message about bad records begins with.
pub open spec fn records_message() -> Seq<char> {
    "could not parse records as [{\"confidence\": f64, \"correct\": bool}, ...]: "@
}

/// The text that says that one thing was found and another expected.
pub open spec fn type_message(found: Seq<char>, expected: Seq<char>) -> Seq<char> {
    records_message() + "invalid type: "@ + found + ", expected "@ + expected
}

/// The text that says what is wrong with a record.
pub open spec fn fault_message(fault: FaultView) -> Seq<char> {
    match fault {
        FaultView::NotARecord(found) => type_message(found, "struct BenchmarkRecord"@),
        FaultView::NoConfidence => records_message() + "missing field `confidence`"@,
        FaultView::NoCorrect => records_message() + "missing field `correct`"@,
        FaultView::BadConfidence(found) => type_message(found, "f64"@),
        FaultView::BadCorrect(found) => type_message(found, "a boolean"@),
    }
}

/// The samples of a document, or the text of what is wrong with it.
pub open spec fn document_samples(tree: Json) -> Result<Seq<SampleView>, Seq<char>> {
    match records_part(tree) {
        None => Err(shape_message()),
        Some(part) => match part.elements() {
            None => Err(type_message(found(part), "a sequence"@)),
            Some(items) => match records(items) {
                Err(fault) => Err(fault_message(fault)),
                Ok(samples) => Ok(samples),
            },
        },
    }
}

/// The samples of a dataset's text, or the text of what is wrong with it.
pub open spec fn dataset(text: Seq<char>) -> Result<Seq<SampleView>, Seq<char>> {
    match parsed_text(text) {
        Err(message) => Err("invalid JSON: "@ + message),
        Ok(tree) => document_samples(tree),
    }
}

/// Does an outcome hold what is expected of it?
pub open spec fn holds(
    r: Result<Vec<ScoredSample>, String>,
    expected: Result<Seq<SampleView>, Seq<char>>,
) -> bool {
    match r {
        Ok(samples) => expected == Ok::<Seq<SampleView>, Seq<char>>(viewed(samples@)),
        Err(message) => expected == Err::<Seq<SampleView>, Seq<char>>(message@),
    }
}

fn records_text() -> (r: String)
    ensures
        r@ == records_message(),
{
    "could not parse records as [{\"confidence\": f64, \"correct\": bool}, ...]: ".to_owned()
}

fn type_text(found: &str, expected: &str) -> (r: String)
    ensures
        r@ == type_message(found@, expected@),
{
    let mut r = records_text();
    r.append("invalid type: ");
    r.append(found);
    r.append(", expected ");
    r.append(expected);
    r
}

fn fault_text(fault: &RecordFault) -> (r: String)
    ensures
        r@ == fault_message(fault@),
{
    match fault {
        RecordFault::NotARecord(found) => type_text(found.as_str(), "struct BenchmarkRecord"),
        RecordFault::NoConfidence => joined(
            records_text().as_str(),
            "missing field `confidence`",
        ),
        RecordFault::NoCorrect => joined(records_text().as_str(), "missing field `correct`"),
        RecordFault::BadConfidence(found) => type_text(found.as_str(), "f64"),
        RecordFault::BadCorrect(found) => type_text(found.as_str(), "a boolean"),
    }
}

/// The words for a document that stands where something else is expected.
fn found_text(value: &serde_json::Value) -> (r: String)
    ensures
        r@ == found(json_tree(*value)),
{
    if let Some(b) = truth(value) {
        if b {
            "boolean `true`".to_owned()
        } else {
            "boolean `false`".to_owned()
        }
    } else if let Some(text) = text_in(value) {
        unexpected_string(text)
    } else if let Some(_) = elements(value) {
        "sequence".to_owned()
    } else if is_object(value) {
        "map".to_owned()
    } else if let Some(_) = number(value) {
        let mut r = if is_float(value) {
            "floating point `".to_owned()
        } else {
            "integer `".to_owned()
        };
        r.append(number_display(value).as_str());
        r.append("`");
        r
    } else {
        "null".to_owned()
    }
}

/// The sample of one record.
pub fn decode_record(value: &serde_json::Value) -> (r: Result<ScoredSample, RecordFault>)
    ensures
        match r {
            Ok(sample) => record(json_tree(*value)) == Ok::<SampleView, FaultView>(sample@),
            Err(fault) => record(json_tree(*value)) == Err::<SampleView, FaultView>(fault@),
        },
{
    if !is_object(value) {
        return Err(RecordFault::NotARecord(found_text(value)));
    }
    let x: Option<Binary64> = match member(value, "confidence") {
        Some(v) => match number(v) {
            Some(x) => Some(x),
            None => return Err(RecordFault::BadConfidence(found_text(v))),
        },
        None => None,
    };
    let b: Option<bool> = match member(value, "correct") {
        Some(v) => match truth(v) {
            Some(b) => Some(b),
            None => return Err(RecordFault::BadCorrect(found_text(v))),
        },
        None => None,
    };
    match (x, b) {
        (None, _) => Err(RecordFault::NoConfidence),
        (_, None) => Err(RecordFault::NoCorrect),
        (Some(confidence), Some(correct)) => Ok(ScoredSample { confidence, correct }),
    }
}

fn decode_records(items: &Vec<serde_json::Value>) -> (r: Result<Vec<ScoredSample>, RecordFault>)
    ensures
        match r {
            Ok(samples) => records(json_trees(items@)) == Ok::<Seq<SampleView>, FaultView>(
                viewed(samples@),
            ),
            Err(fault) => records(json_trees(items@)) == Err::<Seq<SampleView>, FaultView>(fault@),
        },
{
    let mut samples: Vec<ScoredSample> = Vec::new();
    let mut i: usize = 0;
    let ghost trees = json_trees(items@);
    proof {
        assert(trees.take(0) =~= Seq::<Json>::empty());
        assert(viewed(samples@) =~= Seq::<SampleView>::empty());
    }
    while i < items.len()
        invariant
            i <= items@.len(),
            trees == json_trees(items@),
            records(trees.take(i as int)) == Ok::<Seq<SampleView>, FaultView>(viewed(samples@)),
        decreases items@.len() - i,
    {
        assert(trees.take(i + 1).drop_last() =~= trees.take(i as int));
        assert(trees.take(i + 1).last() == json_tree(items@[i as int]));
        match decode_record(&items[i]) {
            Ok(sample) => {
                let ghost before = viewed(samples@);
                samples.push(sample);
                assert(viewed(samples@) =~= before.push(sample@));
            },
            Err(fault) => {
                proof {
                    lemma_first_fault(trees, i + 1);
                }
                return Err(fault);
            },
        }
        i = i + 1;
    }
    assert(trees.take(i as int) =~= trees);
    Ok(samples)
}

/// A fault among the first records is the fault of all.
proof fn lemma_first_fault(items: Seq<Json>, i: int)
    requires
        0 <= i <= items.len(),
        records(items.take(i)) is Err,
    ensures
        records(items) == records(items.take(i)),
    decreases items.len() - i,
{
    if i == items.len() {
        assert(items.take(i) =~= items);
    } else {
        assert(items.take(i + 1).drop_last() =~= items.take(i));
        lemma_first_fault(items, i + 1);
    }
}

/// The samples of a document.
pub fn decode_dataset(value: &serde_json::Value) -> (r: Result<Vec<ScoredSample>, String>)
    ensures
        holds(r, document_samples(json_tree(*value))),
{
    let part: &serde_json::Value = if is_object(value) {
        match member(value, "results") {
            Some(part) => part,
            None => return Err(shape_text()),
        }
    } else {
        match elements(value) {
            Some(_) => value,
            None => return Err(shape_text()),
        }
    };
    match elements(part) {
        None => Err(type_text(found_text(part).as_str(), "a sequence")),
        Some(items) => match decode_records(items) {
            Err(fault) => Err(fault_text(&fault)),
            Ok(samples) => Ok(samples),
        },
    }
}

fn shape_text() -> (r: String)
    ensures
        r@ == shape_message(),
{
    "expected an object with a \"results\" array or a bare [...] array of {\"confidence\": <f64>, \"correct\": <bool>} records".to_owned()
}

/// Parses dataset JSON into samples.
///
/// Accepts either `{"results": [...]}` or a bare `[...]` list of records. A
/// record without a confidence and a correctness is an error, not skipped; other
/// fields are ignored.
pub fn parse_dataset_str(text: &str) -> (r: Result<Vec<ScoredSample>, String>)
    ensures
        holds(r, dataset(text@)),
{
    match parse_text(text) {
        Ok(value) => decode_dataset(&value),
        Err(message) => {
            let mut r = "invalid JSON: ".to_owned();
            r.append(message.as_str());
            Err(r)
        },
    }
}

/// The samples of a file, where there is at least one.
pub open spec fn file_samples(
    path: Seq<char>,
    contents: Result<Seq<char>, Seq<char>>,
) -> Result<Seq<SampleView>, Seq<char>> {
    match contents {
        Err(message) => Err("could not read "@ + path + ": "@ + message),
        Ok(text) => match dataset(text) {
            Err(message) => Err(message),
            Ok(samples) => if samples.len() == 0 {
                Err("no usable records in "@ + path + ": \"results\" array is empty"@)
            } else {
                Ok(samples)
            },
        },
    }
}

/// Parses a dataset file of which the path and what reading it gave are known.
/// Rejects a file without records, so that no report is made of nothing.
pub fn load_dataset_file(path: &str, contents: Result<String, String>) -> (r: Result<
    Vec<ScoredSample>,
    String,
>)
    ensures
        holds(
            r,
            file_samples(
                path@,
                match contents {
                    Ok(text) => Ok(text@),
                    Err(message) => Err(message@),
                },
            ),
        ),
{
    match contents {
        Err(message) => {
            let mut r = "could not read ".to_owned();
            r.append(path);
            r.append(": ");
            r.append(message.as_str());
            Err(r)
        },
        Ok(text) => {
            let samples = parse_dataset_str(text.as_str())?;
            if samples.len() == 0 {
                let mut r = "no usable records in ".to_owned();
                r.append(path);
                r.append(": \"results\" array is empty");
                return Err(r);
            }
            Ok(samples)
        },
    }
}

// ---------------------------------------------------------------------------
// Laws
// ---------------------------------------------------------------------------

/// No record is skipped: where there are samples at all, there is one for each
/// record, in order; and a single bad record makes the whole list an error.
pub proof fn law_no_record_is_skipped(items: Seq<Json>)
    ensures
        match records(items) {
            Ok(samples) => {
                &&& samples.len() == items.len()
                &&& forall|i: int|
                    0 <= i < items.len() ==> record(#[trigger] items[i]) == Ok::<
                        SampleView,
                        FaultView,
                    >(samples[i])
            },
            Err(fault) => exists|i: int|
                0 <= i < items.len() && record(#[trigger] items[i]) == Err::<
                    SampleView,
                    FaultView,
                >(fault),
        },
    decreases items.len(),
{
    if items.len() > 0 {
        let rest = items.drop_last();
        law_no_record_is_skipped(rest);
        let n = items.len() - 1;
        assert(items[n] == items.last());
        match records(rest) {
            Ok(samples) => {
                match record(items.last()) {
                    Ok(sample) => {
                        let all = samples.push(sample);
                        assert forall|i: int| 0 <= i < items.len() implies record(
                            #[trigger] items[i],
                        ) == Ok::<SampleView, FaultView>(all[i]) by {
                            if i < n {
                                assert(rest[i] == items[i]);
                            }
                        }
                    },
                    Err(_) => {},
                }
            },
            Err(fault) => {
                let i = choose|i: int|
                    0 <= i < rest.len() && record(#[trigger] rest[i]) == Err::<
                        SampleView,
                        FaultView,
                    >(fault);
                assert(items[i] == rest[i]);
            },
        }
    }
}

/// Only an object is a record, and it has both fields, of the right types; a list
/// of two values is none.
pub proof fn law_record_has_both_fields(tree: Json)
    ensures
        record(tree) is Ok <==> {
            &&& tree is Object
            &&& tree.member("confidence"@) matches Some(confidence) && confidence is Number
            &&& tree.member("correct"@) matches Some(correct) && correct is Bool
        },
{
}

/// A list of records means the same whether it stands alone or as the member
/// `results` of an object, whatever else that object holds.
pub proof fn law_bare_or_wrapped(tree: Json, items: Seq<Json>)
    requires
        tree.member("results"@) == Some(Json::Array(items)),
    ensures
        document_samples(tree) == document_samples(Json::Array(items)),
{
}

/// Only the confidence and the correctness of a record matter: one that has the
/// same two fields is the same sample, whatever other fields it has.
pub proof fn law_other_fields_are_ignored(a: Json, b: Json)
    requires
        a is Object,
        b is Object,
        a.member("confidence"@) == b.member("confidence"@),
        a.member("correct"@) == b.member("correct"@),
    ensures
        record(a) == record(b),
{
}

/// The sample of a record has the record's own confidence and correctness.
pub proof fn law_record_values(tree: Json)
    ensures
        record(tree) matches Ok(sample) ==> {
            &&& tree.member("confidence"@) matches Some(x) && x.number() == Some(sample.confidence)
            &&& tree.member("correct"@) matches Some(b) && b == Json::Bool(sample.correct)
        },
{
}

/// What is said of a bad record: what stands in its place where it is no object;
/// else what stands in place of its confidence where that is no number; else the
/// same of its correctness; else which of the two is missing, the confidence first.
pub proof fn law_record_faults(tree: Json)
    ensures
        ({
            let confidence = tree.member("confidence"@);
            let correct = tree.member("correct"@);
            let bad_confidence = confidence matches Some(x) && x.number() is None;
            let bad_correct = correct matches Some(b) && b.truth() is None;
            &&& !(tree is Object) ==> record(tree) == Err::<SampleView, FaultView>(
                FaultView::NotARecord(found(tree)),
            )
            &&& tree is Object && bad_confidence ==> record(tree) == Err::<SampleView, FaultView>(
                FaultView::BadConfidence(found(confidence->0)),
            )
            &&& tree is Object && !bad_confidence && bad_correct ==> record(tree) == Err::<
                SampleView,
                FaultView,
            >(FaultView::BadCorrect(found(correct->0)))
            &&& tree is Object && !bad_confidence && !bad_correct && confidence is None ==> record(
                tree,
            ) == Err::<SampleView, FaultView>(FaultView::NoConfidence)
            &&& tree is Object && !bad_confidence && !bad_correct && confidence is Some && correct
                is None ==> record(tree) == Err::<SampleView, FaultView>(FaultView::NoCorrect)
        }),
{
}

/// The fault of a list is that of its first bad record.
pub proof fn law_first_bad_record(items: Seq<Json>, i: int)
    requires
        0 <= i < items.len(),
        forall|k: int| 0 <= k < i ==> record(#[trigger] items[k]) is Ok,
        record(items[i]) is Err,
    ensures
        records(items) == Err::<Seq<SampleView>, FaultView>(record(items[i])->Err_0),
{
    let front = items.take(i + 1);
    let good = items.take(i);
    assert(front.drop_last() =~= good);
    law_no_record_is_skipped(good);
    if records(good) is Err {
        let k = choose|k: int|
            0 <= k < good.len() && record(#[trigger] good[k]) == Err::<SampleView, FaultView>(
                records(good)->Err_0,
            );
        assert(good[k] == items[k]);
    }
    assert(front.last() == items[i]);
    lemma_first_fault(items, i + 1);
}

/// The samples of a document: one for each record of the list, in order, with the
/// record's own values.
pub proof fn law_document_samples(items: Seq<Json>, samples: Seq<SampleView>)
    ensures
        document_samples(Json::Array(items)) == Ok::<Seq<SampleView>, Seq<char>>(samples) <==> {
            &&& samples.len() == items.len()
            &&& forall|i: int|
                0 <= i < items.len() ==> record(#[trigger] items[i]) == Ok::<
                    SampleView,
                    FaultView,
                >(samples[i])
        },
{
    law_no_record_is_skipped(items);
    match records(items) {
        Ok(own) => {
            if samples.len() == items.len() && forall|i: int|
                0 <= i < items.len() ==> record(#[trigger] items[i]) == Ok::<
                    SampleView,
                    FaultView,
                >(samples[i]) {
                assert forall|i: int| 0 <= i < own.len() implies own[i] == samples[i] by {
                    assert(record(items[i]) is Ok);
                }
                assert(own =~= samples);
            }
        },
        Err(_) => {},
    }
}

/// What is said of a document without a list of records.
pub proof fn law_documents_without_records(tree: Json)
    ensures
        ({
            let shape =
                "expected an object with a \"results\" array or a bare [...] array of {\"confidence\": <f64>, \"correct\": <bool>} records"@;
            let prefix =
                "could not parse records as [{\"confidence\": f64, \"correct\": bool}, ...]: "@;
            &&& !(tree is Object) && !(tree is Array) ==> document_samples(tree) == Err::<
                Seq<SampleView>,
                Seq<char>,
            >(shape)
            &&& tree is Object && tree.member("results"@) is None ==> document_samples(tree)
                == Err::<Seq<SampleView>, Seq<char>>(shape)
            &&& tree is Object && (tree.member("results"@) matches Some(part) && !(part is Array))
                ==> document_samples(tree) == Err::<Seq<SampleView>, Seq<char>>(
                prefix + "invalid type: "@ + found(tree.member("results"@)->0) + ", expected "@
                    + "a sequence"@,
            )
        }),
{
}

/// What is said of a document with a bad record.
pub proof fn law_documents_with_a_bad_record(items: Seq<Json>, i: int)
    requires
        0 <= i < items.len(),
        forall|k: int| 0 <= k < i ==> record(#[trigger] items[k]) is Ok,
        record(items[i]) is Err,
    ensures
        document_samples(Json::Array(items)) == Err::<Seq<SampleView>, Seq<char>>(
            "could not parse records as [{\"confidence\": f64, \"correct\": bool}, ...]: "@
                + match record(items[i])->Err_0 {
                FaultView::NotARecord(words) => "invalid type: "@ + words
                    + ", expected struct BenchmarkRecord"@,
                FaultView::NoConfidence => "missing field `confidence`"@,
                FaultView::NoCorrect => "missing field `correct`"@,
                FaultView::BadConfidence(words) => "invalid type: "@ + words + ", expected f64"@,
                FaultView::BadCorrect(words) => "invalid type: "@ + words
                    + ", expected a boolean"@,
            },
        ),
{
    law_first_bad_record(items, i);
    reveal_strlit(", expected ");
    reveal_strlit("struct BenchmarkRecord");
    reveal_strlit(", expected struct BenchmarkRecord");
    reveal_strlit("f64");
    reveal_strlit(", expected f64");
    reveal_strlit("a boolean");
    reveal_strlit(", expected a boolean");
    assert(", expected "@ + "struct BenchmarkRecord"@ =~= ", expected struct BenchmarkRecord"@);
    assert(", expected "@ + "f64"@ =~= ", expected f64"@);
    assert(", expected "@ + "a boolean"@ =~= ", expected a boolean"@);
    let p = "could not parse records as [{\"confidence\": f64, \"correct\": bool}, ...]: "@;
    let t = "invalid type: "@;
    let e = ", expected "@;
    match record(items[i])->Err_0 {
        FaultView::NotARecord(words) => {
            let x = "struct BenchmarkRecord"@;
            assert(p + t + words + e + x =~= p + (t + words + (e + x)));
        },
        FaultView::BadConfidence(words) => {
            let x = "f64"@;
            assert(p + t + words + e + x =~= p + (t + words + (e + x)));
        },
        FaultView::BadCorrect(words) => {
            let x = "a boolean"@;
            assert(p + t + words + e + x =~= p + (t + words + (e + x)));
        },
        _ => {},
    }
}

/// The words for each kind of document.
pub proof fn law_found(tree: Json)
    ensures
        tree is Null ==> found(tree) == "null"@,
        tree == Json::Bool(true) ==> found(tree) == "boolean `true`"@,
        tree == Json::Bool(false) ==> found(tree) == "boolean `false`"@,
        tree matches Json::Number(JsonNumber::PosInt(n)) ==> found(tree) == "integer `"@ + decimal(
            n as nat,
        ) + "`"@,
        tree matches Json::Number(JsonNumber::NegInt(n)) ==> (n < 0 ==> found(tree) == "integer `"@
            + ("-"@ + decimal((-n) as nat)) + "`"@),
        tree matches Json::Number(JsonNumber::Float(bits)) ==> found(tree) == "floating point `"@
            + float_text(bits) + "`"@,
        tree matches Json::Text(text) ==> found(tree) == unexpected_text(text),
        tree is Array ==> found(tree) == "sequence"@,
        tree is Object ==> found(tree) == "map"@,
{
}

/// A text is a dataset where it parses, and then it is that of its document;
/// otherwise the parser's own message is handed on.
pub proof fn law_dataset_text(text: Seq<char>)
    ensures
        parsed_text(text) matches Ok(tree) ==> dataset(text) == document_samples(tree),
        parsed_text(text) matches Err(message) ==> dataset(text) == Err::<
            Seq<SampleView>,
            Seq<char>,
        >("invalid JSON: "@ + message),
{
}

/// A file has the samples of its text, where it can be read and there is at least
/// one; otherwise the path is named.
pub proof fn law_dataset_file(path: Seq<char>, contents: Result<Seq<char>, Seq<char>>)
    ensures
        contents matches Err(message) ==> file_samples(path, contents) == Err::<
            Seq<SampleView>,
            Seq<char>,
        >("could not read "@ + path + ": "@ + message),
        contents matches Ok(text) ==> {
            &&& dataset(text) is Err ==> file_samples(path, contents) == dataset(text)
            &&& dataset(text) matches Ok(samples) ==> {
                &&& samples.len() > 0 ==> file_samples(path, contents) == dataset(text)
                &&& samples.len() == 0 ==> file_samples(path, contents) == Err::<
                    Seq<SampleView>,
                    Seq<char>,
                >("no usable records in "@ + path + ": \"results\" array is empty"@)
            }
        },
{
}

/// An outcome holds what is expected of it: as many samples, each the same, or the
/// same message.
pub proof fn law_outcome(
    r: Result<Vec<ScoredSample>, String>,
    expected: Result<Seq<SampleView>, Seq<char>>,
)
    requires
        holds(r, expected),
    ensures
        r is Ok <==> expected is Ok,
        r matches Ok(samples) ==> {
            &&& samples@.len() == expected->Ok_0.len()
            &&& forall|i: int| 0 <= i < samples@.len() ==> (#[trigger] samples@[i]).confidence@
                == expected->Ok_0[i].confidence && samples@[i].correct
                == expected->Ok_0[i].correct
        },
        r matches Err(message) ==> message@ == expected->Err_0,
{
}

/// The view of a fault shows it as it is.
pub proof fn law_faults_are_seen(fault: RecordFault)
    ensures
        fault matches RecordFault::NotARecord(words) ==> fault@ == FaultView::NotARecord(words@),
        fault is NoConfidence ==> fault@ == FaultView::NoConfidence,
        fault is NoCorrect ==> fault@ == FaultView::NoCorrect,
        fault matches RecordFault::BadConfidence(words) ==> fault@ == FaultView::BadConfidence(
            words@,
        ),
        fault matches RecordFault::BadCorrect(words) ==> fault@ == FaultView::BadCorrect(words@),
{
}

} // verus!
