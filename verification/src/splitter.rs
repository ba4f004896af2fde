//! The record-splitting core: one record becomes an identifier and a
//! payload, a sequence of records becomes two aligned sequences.

use vstd::prelude::*;
use vstd::string::*;

verus! {

/// The reserved character that separates a record's identifier from its
/// payload. It is a fixed convention of the record format, not a
/// configurable parameter.
pub const DELIMITER: char = ':';

/// Index of the first delimiter in `s`, or `s.len()` when `s` holds none.
pub open spec fn spec_split_index(s: Seq<char>) -> int
    decreases s.len(),
{
    if s.len() == 0 {
        0
    } else if s[0] == DELIMITER {
        0
    } else {
        1 + spec_split_index(s.skip(1))
    }
}

/// The identifier of a record: everything strictly before the first
/// delimiter, or the whole record when it holds no delimiter.
pub open spec fn spec_identifier(s: Seq<char>) -> Seq<char> {
    s.take(spec_split_index(s))
}

/// The payload of a record: everything after the first delimiter, later
/// delimiters kept verbatim, or empty when the record holds no delimiter.
pub open spec fn spec_payload(s: Seq<char>) -> Seq<char> {
    if spec_split_index(s) < s.len() {
        s.skip(spec_split_index(s) + 1)
    } else {
        Seq::empty()
    }
}

/// Whether the record holds the delimiter at all.
pub open spec fn has_delimiter(s: Seq<char>) -> bool {
    exists|i: int| 0 <= i < s.len() && s[i] == DELIMITER
}

/// `spec_split_index` points at the first delimiter: no delimiter stands
/// before it, and it points at one exactly when the record holds one.
pub proof fn lemma_split_index_first(s: Seq<char>)
    ensures
        0 <= spec_split_index(s) <= s.len(),
        forall|j: int| 0 <= j < spec_split_index(s) ==> s[j] != DELIMITER,
        spec_split_index(s) < s.len() ==> s[spec_split_index(s)] == DELIMITER,
        has_delimiter(s) <==> spec_split_index(s) < s.len(),
    decreases s.len(),
{
    if s.len() == 0 {
    } else if s[0] == DELIMITER {
    } else {
        let rest = s.skip(1);
        lemma_split_index_first(rest);
        let k = spec_split_index(s);
        assert(k == 1 + spec_split_index(rest));
        assert forall|j: int| 0 <= j < k implies s[j] != DELIMITER by {
            if j > 0 {
                assert(rest[j - 1] == s[j]);
            }
        }
        if k < s.len() {
            assert(s[k] == rest[k - 1]);
        }
        if has_delimiter(s) {
            let w = choose|i: int| 0 <= i < s.len() && s[i] == DELIMITER;
            assert(rest[w - 1] == s[w]);
            assert(has_delimiter(rest));
        }
        if has_delimiter(rest) {
            let w = choose|i: int| 0 <= i < rest.len() && rest[i] == DELIMITER;
            assert(s[w + 1] == rest[w]);
            assert(has_delimiter(s));
        }
    }
}

/// Any position with no delimiter before it, and a delimiter at it unless
/// it is the record's end, is the first-delimiter index.
proof fn lemma_first_delimiter_unique(s: Seq<char>, i: int)
    requires
        0 <= i <= s.len(),
        forall|j: int| 0 <= j < i ==> s[j] != DELIMITER,
        i < s.len() ==> s[i] == DELIMITER,
    ensures
        i == spec_split_index(s),
{
    lemma_split_index_first(s);
    let k = spec_split_index(s);
    if i < k {
        assert(s[i] != DELIMITER);
        assert(s[i] == DELIMITER);
    } else if k < i {
        assert(s[k] != DELIMITER);
        assert(s[k] == DELIMITER);
    }
}

/// Find the index of the first delimiter in `record`, or its length when
/// it holds none.
pub fn find_delimiter(record: &str) -> (r: usize)
    ensures
        r == spec_split_index(record@),
{
    let n = record.unicode_len();
    let mut j: usize = 0;
    while j < n
        invariant
            n == record@.len(),
            j <= n,
            forall|t: int| 0 <= t < j ==> record@[t] != DELIMITER,
        decreases n - j,
    {
        if record.get_char(j) == DELIMITER {
            proof {
                lemma_first_delimiter_unique(record@, j as int);
            }
            return j;
        }
        j = j + 1;
    }
    proof {
        lemma_first_delimiter_unique(record@, n as int);
    }
    n
}

/// Split one record at the first delimiter: the identifier is the text
/// strictly before it, the payload the text after it with any later
/// delimiters kept verbatim. A record with no delimiter is all
/// identifier, with an empty payload.
pub fn split_record(record: &str) -> (r: (String, String))
    ensures
        r.0@ == spec_identifier(record@),
        r.1@ == spec_payload(record@),
{
    let n = record.unicode_len();
    let k = find_delimiter(record);
    proof {
        lemma_split_index_first(record@);
    }
    let identifier = record.substring_char(0, k).to_owned();
    let payload = if k < n {
        record.substring_char(k + 1, n).to_owned()
    } else {
        String::new()
    };
    proof {
        assert(identifier@ =~= spec_identifier(record@));
        assert(payload@ =~= spec_payload(record@));
    }
    (identifier, payload)
}

/// One element of the input sequence as the host hands it over: either a
/// text value, which the splitter can process, or a value of some other
/// kind, which it must reject.
pub enum InputValue {
    Text(String),
    Other,
}

/// Why a call failed. Every failure is reported eagerly, before any
/// partial output is produced.
#[derive(Debug, PartialEq, Eq, Structural)]
pub enum SplitError {
    /// No input sequence was supplied at all.
    MissingArgument,
    /// The input sequence has zero elements.
    EmptyInput,
    /// The element at `index` is not a text value; every element before
    /// it is.
    InvalidRecordEncoding { index: usize },
}

/// The two aligned output sequences: `identifiers[i]` and `payloads[i]`
/// together carry the content of the record at input index `i`.
#[derive(Debug)]
pub struct SplitResult {
    pub identifiers: Vec<String>,
    pub payloads: Vec<String>,
}

/// The identifiers of a sequence of records, in the records' order.
pub open spec fn spec_identifiers(texts: Seq<Seq<char>>) -> Seq<Seq<char>> {
    texts.map(|i: int, t: Seq<char>| spec_identifier(t))
}

/// The payloads of a sequence of records, in the records' order.
pub open spec fn spec_payloads(texts: Seq<Seq<char>>) -> Seq<Seq<char>> {
    texts.map(|i: int, t: Seq<char>| spec_payload(t))
}

/// `res` is exactly the splitting of `texts`: both output sequences are
/// as long as the input, and element `i` of each is the identifier,
/// respectively the payload, of record `i`.
pub open spec fn splits(texts: Seq<Seq<char>>, res: SplitResult) -> bool {
    &&& res.identifiers.deep_view() == spec_identifiers(texts)
    &&& res.payloads.deep_view() == spec_payloads(texts)
}

/// Whether every element of the input is a text value.
pub open spec fn all_text(vs: Seq<InputValue>) -> bool {
    forall|i: int| 0 <= i < vs.len() ==> vs[i] is Text
}

/// The text content of each input element; meaningful when `all_text`
/// holds of the sequence.
pub open spec fn texts_of(vs: Seq<InputValue>) -> Seq<Seq<char>> {
    vs.map(|i: int, v: InputValue| v->Text_0@)
}

/// Split every record of a non-empty sequence of text records, in order.
/// An empty sequence is a caller usage error, not a degenerate valid
/// case: it is rejected, and no other input is.
pub fn split_strings(records: &Vec<String>) -> (r: Result<SplitResult, SplitError>)
    ensures
        match r {
            Ok(res) => records@.len() > 0 && splits(records.deep_view(), res),
            Err(e) => e == SplitError::EmptyInput && records@.len() == 0,
        },
{
    if records.len() == 0 {
        return Err(SplitError::EmptyInput);
    }
    let n = records.len();
    let mut identifiers: Vec<String> = Vec::new();
    let mut payloads: Vec<String> = Vec::new();
    let mut i: usize = 0;
    while i < n
        invariant
            n == records@.len(),
            i <= n,
            identifiers@.len() == i,
            payloads@.len() == i,
            forall|j: int| 0 <= j < i ==> #[trigger] identifiers@[j]@ == spec_identifier(records@[j]@),
            forall|j: int| 0 <= j < i ==> #[trigger] payloads@[j]@ == spec_payload(records@[j]@),
        decreases n - i,
    {
        let (identifier, payload) = split_record(records[i].as_str());
        identifiers.push(identifier);
        payloads.push(payload);
        i = i + 1;
    }
    proof {
        assert(identifiers.deep_view() =~= spec_identifiers(records.deep_view()));
        assert(payloads.deep_view() =~= spec_payloads(records.deep_view()));
    }
    Ok(SplitResult { identifiers, payloads })
}

/// Split a non-empty sequence of input elements, rejecting an empty
/// sequence and any element that is not text. The first non-text element
/// is the one reported; nothing before it can be.
pub fn split_values(values: &Vec<InputValue>) -> (r: Result<SplitResult, SplitError>)
    ensures
        match r {
            Err(SplitError::MissingArgument) => false,
            Err(SplitError::EmptyInput) => values@.len() == 0,
            Err(SplitError::InvalidRecordEncoding { index }) => values@.len() > 0 && index
                < values@.len() && !(values@[index as int] is Text) && (forall|j: int|
                0 <= j < index ==> values@[j] is Text),
            Ok(res) => values@.len() > 0 && all_text(values@) && splits(texts_of(values@), res),
        },
{
    if values.len() == 0 {
        return Err(SplitError::EmptyInput);
    }
    let n = values.len();
    let mut identifiers: Vec<String> = Vec::new();
    let mut payloads: Vec<String> = Vec::new();
    let mut i: usize = 0;
    while i < n
        invariant
            n == values@.len(),
            i <= n,
            identifiers@.len() == i,
            payloads@.len() == i,
            forall|j: int| 0 <= j < i ==> values@[j] is Text,
            forall|j: int| 0 <= j < i ==> #[trigger] identifiers@[j]@ == spec_identifier(
                values@[j]->Text_0@,
            ),
            forall|j: int| 0 <= j < i ==> #[trigger] payloads@[j]@ == spec_payload(
                values@[j]->Text_0@,
            ),
        decreases n - i,
    {
        let record = match &values[i] {
            InputValue::Text(s) => s,
            InputValue::Other => {
                return Err(SplitError::InvalidRecordEncoding { index: i });
            },
        };
        let (identifier, payload) = split_record(record.as_str());
        identifiers.push(identifier);
        payloads.push(payload);
        i = i + 1;
    }
    proof {
        assert(identifiers.deep_view() =~= spec_identifiers(texts_of(values@)));
        assert(payloads.deep_view() =~= spec_payloads(texts_of(values@)));
    }
    Ok(SplitResult { identifiers, payloads })
}

/// Split a sequence of candidate records as the host hands it over.
/// A missing argument, an empty sequence, and a non-text element are
/// each rejected eagerly, in that order; otherwise every record is split
/// at its first delimiter, order preserved.
pub fn split_candidates_list(records: Option<&Vec<InputValue>>) -> (r: Result<
    SplitResult,
    SplitError,
>)
    ensures
        match r {
            Err(SplitError::MissingArgument) => records is None,
            Err(SplitError::EmptyInput) => records matches Some(v) && v@.len() == 0,
            Err(SplitError::InvalidRecordEncoding { index }) => records matches Some(v)
                && v@.len() > 0 && index < v@.len() && !(v@[index as int] is Text) && (forall|
                j: int,
            | 0 <= j < index ==> v@[j] is Text),
            Ok(res) => records matches Some(v) && v@.len() > 0 && all_text(v@) && splits(
                texts_of(v@),
                res,
            ),
        },
{
    match records {
        None => Err(SplitError::MissingArgument),
        Some(values) => split_values(values),
    }
}

impl SplitError {
    /// A human-readable description of the failure.
    pub fn message(&self) -> (r: String)
        ensures
            match self {
                SplitError::MissingArgument => r@ == "Argument 1 must be passed"@,
                SplitError::EmptyInput => r@ == "Candidates list must not be empty"@,
                SplitError::InvalidRecordEncoding { .. } => r@
                    == "Candidates list element is not a text value"@,
            },
    {
        match self {
            SplitError::MissingArgument => "Argument 1 must be passed".to_owned(),
            SplitError::EmptyInput => "Candidates list must not be empty".to_owned(),
            SplitError::InvalidRecordEncoding { .. } => "Candidates list element is not a text value".to_owned(),
        }
    }
}

/// Alignment: a successful split yields exactly one identifier and one
/// payload for each input record, so the two output sequences and the
/// input all have the same length.
pub proof fn lemma_alignment(texts: Seq<Seq<char>>, res: SplitResult)
    requires
        splits(texts, res),
    ensures
        res.identifiers@.len() == texts.len(),
        res.payloads@.len() == texts.len(),
{
    assert(res.identifiers.deep_view().len() == res.identifiers@.len());
    assert(res.payloads.deep_view().len() == res.payloads@.len());
}

/// Reconstruction of one record: when it holds a delimiter, its
/// identifier, one delimiter, and its payload concatenate back to the
/// record itself.
pub proof fn lemma_record_reconstruction(s: Seq<char>)
    requires
        has_delimiter(s),
    ensures
        spec_identifier(s) + seq![DELIMITER] + spec_payload(s) == s,
{
    lemma_split_index_first(s);
    assert(spec_identifier(s) + seq![DELIMITER] + spec_payload(s) =~= s);
}

/// Reconstruction across a split sequence: at every position whose record
/// holds a delimiter, the output identifier, one delimiter, and the
/// output payload concatenate back to the input record at that position.
pub proof fn lemma_reconstruction(texts: Seq<Seq<char>>, i: int)
    requires
        0 <= i < texts.len(),
        has_delimiter(texts[i]),
    ensures
        spec_identifiers(texts)[i] + seq![DELIMITER] + spec_payloads(texts)[i] == texts[i],
{
    lemma_record_reconstruction(texts[i]);
}

/// The missing-delimiter boundary: a record with no delimiter is all
/// identifier, and its payload is empty.
pub proof fn lemma_missing_delimiter(s: Seq<char>)
    requires
        !has_delimiter(s),
    ensures
        spec_identifier(s) == s,
        spec_payload(s) == Seq::<char>::empty(),
{
    lemma_split_index_first(s);
    assert(spec_identifier(s) =~= s);
}

/// Order preservation: the outputs at a position depend only on the
/// record at the same input position, so permuting the input permutes
/// both output sequences identically — no reordering, sorting or
/// grouping occurs.
pub proof fn lemma_order_preservation(
    a: Seq<Seq<char>>,
    b: Seq<Seq<char>>,
    p: spec_fn(int) -> int,
)
    requires
        a.len() == b.len(),
        forall|i: int| 0 <= i < b.len() ==> 0 <= #[trigger] p(i) < a.len(),
        forall|i: int| 0 <= i < b.len() ==> #[trigger] b[i] == a[p(i)],
    ensures
        forall|i: int| 0 <= i < b.len() ==> #[trigger] spec_identifiers(b)[i] == spec_identifiers(
            a,
        )[p(i)],
        forall|i: int| 0 <= i < b.len() ==> #[trigger] spec_payloads(b)[i] == spec_payloads(a)[p(
            i,
        )],
{
}

/// Splitting is a pure function of its input: any two results that the
/// splitting relation admits for one input hold equal sequences, so
/// calling the operation twice on the same input yields identical
/// outputs.
pub proof fn lemma_split_deterministic(texts: Seq<Seq<char>>, r1: SplitResult, r2: SplitResult)
    requires
        splits(texts, r1),
        splits(texts, r2),
    ensures
        r1.identifiers.deep_view() == r2.identifiers.deep_view(),
        r1.payloads.deep_view() == r2.payloads.deep_view(),
{
}

} // verus!
