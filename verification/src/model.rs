//! Requests, results and schemas, with the limits they must respect.
use vstd::prelude::*;
use vstd::string::*;
use vstd::utf8::*;

use crate::double::{
    at_least, double_ge, double_value, finite_double, finite_single, is_finite_double,
    is_finite_single, is_zero_single, law_doubles_compare_as_numbers, numeric_order, zero_single,
};
use crate::error::{invalid, verdict, Error, ErrorView, Result, Verdict};
use crate::json::{as_double_spec, json_equal, Json};
use crate::text::{decimal, push_decimal, text_eq, views};
use crate::textmap::TextMap;

verus! {

pub const MAX_BODY_BYTES: usize = 8388608;

pub const MAX_DOCUMENT_BYTES: usize = 262144;

pub const MAX_BATCH_OPERATIONS: usize = 1000;

pub const MAX_DIMENSIONS: usize = 4096;

pub const MAX_PAGE_SIZE: usize = 1000;

pub const MAX_TOP_K: usize = 100;

pub const MAX_TEXT_FIELDS: usize = 16;

pub const MAX_PREDICATES: usize = 64;

// ---------------------------------------------------------------------------
// Identifiers
// ---------------------------------------------------------------------------
pub open spec fn id_char(c: char) -> bool {
    'a' <= c <= 'z' || 'A' <= c <= 'Z' || '0' <= c <= '9' || c == '_' || c == '-'
}

/// 1 to 128 ASCII letters, digits, underscores or hyphens.
pub open spec fn valid_id(id: Seq<char>) -> bool {
    1 <= id.len() <= 128 && forall|i: int| 0 <= i < id.len() ==> id_char(#[trigger] id[i])
}

pub proof fn lemma_id_size(id: Seq<char>)
    requires
        valid_id(id),
    ensures
        encode_utf8(id).len() == id.len(),
{
    assert(is_ascii_chars(id)) by {
        assert forall|i: int| 0 <= i < id.len() implies '\0' <= #[trigger] id[i] <= '\u{7f}' by {
            assert(id_char(id[i]));
        }
    }
    is_ascii_chars_encode_utf8(id);
}

pub open spec fn id_message() -> Seq<char> {
    "IDs must contain 1–128 ASCII letters, digits, underscores, or hyphens"@
}

pub open spec fn id_verdict(id: Seq<char>) -> Verdict {
    if valid_id(id) {
        Ok(())
    } else {
        Err(ErrorView::Invalid(id_message()))
    }
}

/// IDs are URL-safe and cannot escape their namespace's key prefix.
pub fn validate_id(value: &str) -> (result: Result<()>)
    ensures
        verdict(result) == id_verdict(value@),
{
    if is_valid_id(value) {
        Ok(())
    } else {
        Err(invalid("IDs must contain 1–128 ASCII letters, digits, underscores, or hyphens"))
    }
}

pub fn is_valid_id(value: &str) -> (valid: bool)
    ensures
        valid == valid_id(value@),
{
    if !value.is_ascii() {
        proof {
            if valid_id(value@) {
                assert(is_ascii_chars(value@)) by {
                    assert forall|i: int| 0 <= i < value@.len() implies (value@[i] as nat) < 128 by {
                        assert(id_char(value@[i]));
                    }
                }
            }
        }
        return false;
    }
    let bytes = value.as_bytes();
    proof {
        is_ascii_chars_encode_utf8(value@);
    }
    if bytes.len() == 0 || bytes.len() > 128 {
        return false;
    }
    let mut i: usize = 0;
    while i < bytes.len()
        invariant
            i <= bytes@.len(),
            bytes@.len() == value@.len(),
            forall|j: int| 0 <= j < bytes@.len() ==> bytes@[j] == #[trigger] value@[j] as u8,
            forall|j: int| 0 <= j < value@.len() ==> '\0' <= #[trigger] value@[j] <= '\u{7f}',
            forall|j: int| 0 <= j < i ==> id_char(#[trigger] value@[j]),
        decreases bytes@.len() - i,
    {
        let b = bytes[i];
        let ok = (97 <= b && b <= 122) || (65 <= b && b <= 90) || (48 <= b && b <= 57) || b == 95 || b
            == 45;
        let ghost c = value@[i as int];
        assert(ok == id_char(c)) by {
            assert(b == c as u8);
        }
        if !ok {
            return false;
        }
        i += 1;
    }
    true
}

/// Whether `needle` is one of `strings`.
pub fn contains_text(strings: &Vec<String>, needle: &str) -> (found: bool)
    ensures
        found == views(strings@).contains(needle@),
{
    let mut i: usize = 0;
    while i < strings.len()
        invariant
            i <= strings@.len(),
            forall|j: int| 0 <= j < i ==> views(strings@)[j] != needle@,
        decreases strings@.len() - i,
    {
        if text_eq(strings[i].as_str(), needle) {
            assert(views(strings@)[i as int] == needle@);
            return true;
        }
        i += 1;
    }
    false
}

// ---------------------------------------------------------------------------
// Schemas
// ---------------------------------------------------------------------------
#[derive(Clone, Copy, Debug, PartialEq, Eq, Structural)]
pub enum Metric {
    Cosine,
    Dot,
    SquaredEuclidean,
}

impl Default for Metric {
    fn default() -> (metric: Self)
        ensures
            metric == Metric::Cosine,
    {
        Metric::Cosine
    }
}

/// A namespace's schema, fixed at creation. Without dimensions the namespace
/// holds documents only; `text_fields` names the attributes open to text search.
#[derive(Clone, Debug)]
pub struct NamespaceConfig {
    pub dimensions: Option<usize>,
    pub metric: Metric,
    pub text_fields: Vec<String>,
}

impl Default for NamespaceConfig {
    fn default() -> (config: Self)
        ensures
            config.dimensions is None,
            config.metric == Metric::Cosine,
            config.text_fields@.len() == 0,
    {
        NamespaceConfig { dimensions: None, metric: Metric::Cosine, text_fields: Vec::new() }
    }
}

pub open spec fn zero_vector(vector: Seq<u32>) -> bool {
    forall|i: int| 0 <= i < vector.len() ==> zero_single(#[trigger] vector[i])
}

pub open spec fn finite_vector(vector: Seq<u32>) -> bool {
    forall|i: int| 0 <= i < vector.len() ==> finite_single(#[trigger] vector[i])
}

impl NamespaceConfig {
    pub open spec fn text_fields_valid(self) -> bool {
        let fields = views(self.text_fields@);
        &&& fields.len() <= MAX_TEXT_FIELDS
        &&& fields.no_duplicates()
        &&& forall|i: int| 0 <= i < fields.len() ==> valid_id(#[trigger] fields[i])
    }

    pub open spec fn config_verdict(self) -> Verdict {
        if self.dimensions is Some && !(1 <= self.dimensions->0 <= MAX_DIMENSIONS) {
            Err(ErrorView::Invalid("dimensions must be between 1 and 4096"@))
        } else if !self.text_fields_valid() {
            Err(ErrorView::Invalid("text_fields must be at most 16 unique ID-shaped names"@))
        } else {
            Ok(())
        }
    }

    pub fn validate(&self) -> (result: Result<()>)
        ensures
            verdict(result) == self.config_verdict(),
    {
        if let Some(d) = self.dimensions {
            if d < 1 || d > MAX_DIMENSIONS {
                return Err(invalid("dimensions must be between 1 and 4096"));
            }
        }
        if self.text_fields.len() > MAX_TEXT_FIELDS {
            return Err(invalid("text_fields must be at most 16 unique ID-shaped names"));
        }
        let ghost fields = views(self.text_fields@);
        let mut i: usize = 0;
        while i < self.text_fields.len()
            invariant
                i <= self.text_fields@.len(),
                fields == views(self.text_fields@),
                forall|j: int| 0 <= j < i ==> valid_id(#[trigger] fields[j]),
                forall|j: int, k: int| 0 <= j < k < i ==> fields[j] != fields[k],
                !(self.dimensions is Some && !(1 <= self.dimensions->0 <= MAX_DIMENSIONS)),
            decreases self.text_fields@.len() - i,
        {
            let field = self.text_fields[i].as_str();
            assert(field@ == fields[i as int]);
            if !is_valid_id(field) {
                return Err(invalid("text_fields must be at most 16 unique ID-shaped names"));
            }
            let mut j: usize = 0;
            while j < i
                invariant
                    j <= i < self.text_fields@.len(),
                    fields == views(self.text_fields@),
                    field@ == fields[i as int],
                    forall|m: int| 0 <= m < j ==> fields[m] != field@,
                    !(self.dimensions is Some && !(1 <= self.dimensions->0 <= MAX_DIMENSIONS)),
                decreases i - j,
            {
                if text_eq(self.text_fields[j].as_str(), field) {
                    assert(fields[j as int] == fields[i as int]);
                    return Err(invalid("text_fields must be at most 16 unique ID-shaped names"));
                }
                j += 1;
            }
            i += 1;
        }
        Ok(())
    }

    pub open spec fn vector_verdict(self, vector: Seq<u32>) -> Verdict {
        match self.dimensions {
            None => Err(ErrorView::Invalid("namespace has no vector dimensions"@)),
            Some(dimensions) => if vector.len() != dimensions || !finite_vector(vector) {
                Err(
                    ErrorView::Invalid(
                        "vector must have "@ + decimal(dimensions as nat)
                            + " finite f32 components"@,
                    ),
                )
            } else if self.metric == Metric::Cosine && zero_vector(vector) {
                Err(ErrorView::Invalid("cosine vectors must have nonzero length"@))
            } else {
                Ok(())
            },
        }
    }

    pub open spec fn accepts_vector(self, vector: Seq<u32>) -> bool {
        self.vector_verdict(vector) is Ok
    }

    /// Checks a vector of singles, given by their IEEE-754 bits.
    pub fn validate_vector(&self, vector: &[u32]) -> (result: Result<()>)
        ensures
            verdict(result) == self.vector_verdict(vector@),
    {
        match self.dimensions {
            None => Err(invalid("namespace has no vector dimensions")),
            Some(dimensions) => {
                if vector.len() != dimensions || !all_finite(vector) {
                    let mut message = "vector must have ".to_string();
                    push_decimal(&mut message, dimensions as u64);
                    message.append(" finite f32 components");
                    return Err(Error::Invalid(message));
                }
                if self.metric == Metric::Cosine && all_zero(vector) {
                    return Err(invalid("cosine vectors must have nonzero length"));
                }
                Ok(())
            },
        }
    }

    /// The two schemas are the same.
    pub open spec fn same_as(self, other: NamespaceConfig) -> bool {
        &&& self.dimensions == other.dimensions
        &&& self.metric == other.metric
        &&& views(self.text_fields@) == views(other.text_fields@)
    }

    pub fn equals(&self, other: &NamespaceConfig) -> (equal: bool)
        ensures
            equal == self.same_as(*other),
    {
        let dimensions = match (self.dimensions, other.dimensions) {
            (None, None) => true,
            (Some(a), Some(b)) => a == b,
            _ => false,
        };
        if !dimensions || self.metric != other.metric {
            return false;
        }
        let ghost a = views(self.text_fields@);
        let ghost b = views(other.text_fields@);
        if self.text_fields.len() != other.text_fields.len() {
            assert(a.len() != b.len());
            return false;
        }
        let mut i: usize = 0;
        while i < self.text_fields.len()
            invariant
                i <= self.text_fields@.len(),
                self.text_fields@.len() == other.text_fields@.len(),
                a == views(self.text_fields@),
                b == views(other.text_fields@),
                forall|j: int| 0 <= j < i ==> a[j] == b[j],
            decreases self.text_fields@.len() - i,
        {
            if !text_eq(self.text_fields[i].as_str(), other.text_fields[i].as_str()) {
                assert(a[i as int] != b[i as int]);
                return false;
            }
            i += 1;
        }
        assert(a =~= b);
        true
    }
}

fn all_finite(vector: &[u32]) -> (all: bool)
    ensures
        all == finite_vector(vector@),
{
    let mut i: usize = 0;
    while i < vector.len()
        invariant
            i <= vector@.len(),
            forall|j: int| 0 <= j < i ==> finite_single(#[trigger] vector@[j]),
        decreases vector@.len() - i,
    {
        if !is_finite_single(vector[i]) {
            return false;
        }
        i += 1;
    }
    true
}

fn all_zero(vector: &[u32]) -> (all: bool)
    ensures
        all == zero_vector(vector@),
{
    let mut i: usize = 0;
    while i < vector.len()
        invariant
            i <= vector@.len(),
            forall|j: int| 0 <= j < i ==> zero_single(#[trigger] vector@[j]),
        decreases vector@.len() - i,
    {
        if !is_zero_single(vector[i]) {
            return false;
        }
        i += 1;
    }
    true
}

#[derive(Clone, Debug)]
pub struct Namespace {
    pub name: String,
    pub config: NamespaceConfig,
}

// ---------------------------------------------------------------------------
// Documents and writes
// ---------------------------------------------------------------------------
/// A document. The vector holds the IEEE-754 bits of its singles.
#[derive(Debug)]
pub struct Document {
    pub id: String,
    pub vector: Option<Vec<u32>>,
    pub attributes: TextMap<Json>,
}

#[derive(Debug)]
pub struct WriteRequest {
    pub upsert: Vec<Document>,
    pub delete: Vec<String>,
}

#[derive(Debug)]
pub struct WriteResult {
    pub upserted: usize,
    pub deleted: usize,
    pub sequence: u64,
    pub revision: u64,
}

/// Counters of one namespace. `revision` counts accepted batches; the others
/// describe the live primary data and the changes that no index covers yet.
#[derive(Clone, Copy, Debug, PartialEq, Eq, Structural)]
pub struct NamespaceStats {
    pub revision: u64,
    pub documents: u64,
    pub bytes: u64,
    pub pending_documents: u64,
}

impl Default for NamespaceStats {
    fn default() -> (stats: Self)
        ensures
            stats == (NamespaceStats { revision: 0, documents: 0, bytes: 0, pending_documents: 0 }),
    {
        NamespaceStats { revision: 0, documents: 0, bytes: 0, pending_documents: 0 }
    }
}

// ---------------------------------------------------------------------------
// Filters
// ---------------------------------------------------------------------------
/// Inclusive bounds, given by the IEEE-754 bits of doubles.
#[derive(Clone, Copy, Debug)]
pub struct NumericRange {
    pub gte: Option<u64>,
    pub lte: Option<u64>,
}

impl NumericRange {
    /// At least one bound; bounds are finite and ordered.
    pub open spec fn valid(self) -> bool {
        &&& self.gte is Some || self.lte is Some
        &&& self.gte is Some ==> finite_double(self.gte->0)
        &&& self.lte is Some ==> finite_double(self.lte->0)
        &&& self.gte is Some && self.lte is Some ==> numeric_order(self.gte->0) <= numeric_order(
            self.lte->0,
        )
    }

    pub open spec fn admits(self, value: u64) -> bool {
        &&& self.gte is Some ==> double_ge(value, self.gte->0)
        &&& self.lte is Some ==> double_ge(self.lte->0, value)
    }

    pub fn is_valid(&self) -> (valid: bool)
        ensures
            valid == self.valid(),
    {
        match (self.gte, self.lte) {
            (None, None) => false,
            (Some(lo), None) => is_finite_double(lo),
            (None, Some(hi)) => is_finite_double(hi),
            (Some(lo), Some(hi)) => is_finite_double(lo) && is_finite_double(hi) && at_least(hi, lo),
        }
    }

    pub fn contains(&self, value: u64) -> (inside: bool)
        ensures
            inside == self.admits(value),
    {
        let above = match self.gte {
            Some(lo) => at_least(value, lo),
            None => true,
        };
        let below = match self.lte {
            Some(hi) => at_least(hi, value),
            None => true,
        };
        above && below
    }
}

/// Exact JSON equality and numeric ranges on top-level attributes. All
/// predicates must hold.
#[derive(Debug)]
pub struct Filter {
    pub eq: TextMap<Json>,
    pub range: TextMap<NumericRange>,
}

pub open spec fn eq_holds(
    attributes: Map<Seq<char>, Json>,
    field: Seq<char>,
    expected: Json,
) -> bool {
    attributes.contains_key(field) && json_equal(attributes[field]@, expected@)
}

pub open spec fn range_holds(
    attributes: Map<Seq<char>, Json>,
    field: Seq<char>,
    range: NumericRange,
) -> bool {
    &&& attributes.contains_key(field)
    &&& as_double_spec(attributes[field]@) is Some
    &&& range.admits(as_double_spec(attributes[field]@)->0)
}

impl Filter {
    pub open spec fn filter_verdict(self) -> Verdict {
        if self.eq@.dom().len() + self.range@.dom().len() > MAX_PREDICATES {
            Err(ErrorView::Invalid("at most 64 filter predicates are allowed"@))
        } else if !(forall|field: Seq<char>|
            self.range@.contains_key(field) ==> (#[trigger] self.range@[field]).valid()) {
            Err(ErrorView::Invalid("ranges require finite, ordered gte and/or lte bounds"@))
        } else {
            Ok(())
        }
    }

    /// No predicates: every document matches.
    pub open spec fn unrestricted(self) -> bool {
        self.eq@.dom() =~= Set::<Seq<char>>::empty() && self.range@.dom() =~= Set::<
            Seq<char>,
        >::empty()
    }

    /// The attributes satisfy every predicate.
    pub open spec fn accepts(self, attributes: Map<Seq<char>, Json>) -> bool {
        &&& forall|field: Seq<char>|
            self.eq@.contains_key(field) ==> eq_holds(
                attributes,
                field,
                #[trigger] self.eq@[field],
            )
        &&& forall|field: Seq<char>|
            self.range@.contains_key(field) ==> range_holds(
                attributes,
                field,
                #[trigger] self.range@[field],
            )
    }

    pub fn validate(&self) -> (result: Result<()>)
        ensures
            verdict(result) == self.filter_verdict(),
    {
        let eqs = self.eq.len();
        let ranges = self.range.len();
        if eqs > MAX_PREDICATES || ranges > MAX_PREDICATES || eqs + ranges > MAX_PREDICATES {
            return Err(invalid("at most 64 filter predicates are allowed"));
        }
        let mut i: usize = 0;
        while i < ranges
            invariant
                i <= ranges,
                ranges == self.range.keys().len(),
                self.range.coherent(),
                self.eq@.dom().len() + self.range@.dom().len() <= MAX_PREDICATES,
                forall|j: int|
                    0 <= j < i ==> self.range@[#[trigger] self.range.keys()[j]].valid(),
            decreases ranges - i,
        {
            if !self.range.value(i).is_valid() {
                assert(!self.range@[self.range.keys()[i as int]].valid());
                return Err(invalid("ranges require finite, ordered gte and/or lte bounds"));
            }
            i += 1;
        }
        assert forall|field: Seq<char>| self.range@.contains_key(field) implies (
        #[trigger] self.range@[field]).valid() by {
            assert(self.range.keys().contains(field));
            let j = choose|j: int| 0 <= j < self.range.keys().len() && self.range.keys()[j] == field;
            assert(self.range@[self.range.keys()[j]].valid());
        }
        Ok(())
    }

    pub fn is_unrestricted(&self) -> (none: bool)
        ensures
            none == self.unrestricted(),
    {
        self.eq.is_empty() && self.range.is_empty()
    }

    pub fn matches(&self, attributes: &TextMap<Json>) -> (matched: bool)
        ensures
            matched == self.accepts(attributes@),
    {
        let eqs = self.eq.len();
        let mut i: usize = 0;
        while i < eqs
            invariant
                i <= eqs,
                eqs == self.eq.keys().len(),
                self.eq.coherent(),
                forall|j: int|
                    0 <= j < i ==> eq_holds(
                        attributes@,
                        #[trigger] self.eq.keys()[j],
                        self.eq@[self.eq.keys()[j]],
                    ),
            decreases eqs - i,
        {
            let field = self.eq.key(i);
            let expected = self.eq.value(i);
            let held = match attributes.get(field.as_str()) {
                Some(value) => value.equals(expected),
                None => false,
            };
            if !held {
                assert(!eq_holds(attributes@, field@, self.eq@[field@]));
                return false;
            }
            i += 1;
        }
        let ranges = self.range.len();
        let mut k: usize = 0;
        while k < ranges
            invariant
                k <= ranges,
                ranges == self.range.keys().len(),
                self.range.coherent(),
                forall|j: int|
                    0 <= j < k ==> range_holds(
                        attributes@,
                        #[trigger] self.range.keys()[j],
                        self.range@[self.range.keys()[j]],
                    ),
            decreases ranges - k,
        {
            let field = self.range.key(k);
            let range = self.range.value(k);
            let held = match attributes.get(field.as_str()) {
                Some(value) => match value.as_double() {
                    Some(number) => range.contains(number),
                    None => false,
                },
                None => false,
            };
            if !held {
                assert(!range_holds(attributes@, field@, self.range@[field@]));
                return false;
            }
            k += 1;
        }
        proof {
            assert forall|field: Seq<char>| self.eq@.contains_key(field) implies eq_holds(
                attributes@,
                field,
                #[trigger] self.eq@[field],
            ) by {
                assert(self.eq.keys().contains(field));
                let j = choose|j: int| 0 <= j < self.eq.keys().len() && self.eq.keys()[j] == field;
                assert(eq_holds(attributes@, self.eq.keys()[j], self.eq@[self.eq.keys()[j]]));
            }
            assert forall|field: Seq<char>| self.range@.contains_key(field) implies range_holds(
                attributes@,
                field,
                #[trigger] self.range@[field],
            ) by {
                assert(self.range.keys().contains(field));
                let j = choose|j: int|
                    0 <= j < self.range.keys().len() && self.range.keys()[j] == field;
                assert(range_holds(
                    attributes@,
                    self.range.keys()[j],
                    self.range@[self.range.keys()[j]],
                ));
            }
        }
        true
    }
}

// ---------------------------------------------------------------------------
// Queries
// ---------------------------------------------------------------------------
/// `Auto` and `Ann` use a published index when there is one; `Exact` always
/// scans primary data.
#[derive(Clone, Copy, Debug, PartialEq, Eq, Structural)]
pub enum SearchMode {
    Auto,
    Ann,
    Exact,
}

impl Default for SearchMode {
    fn default() -> (mode: Self)
        ensures
            mode == SearchMode::Auto,
    {
        SearchMode::Auto
    }
}

#[derive(Debug)]
pub struct QueryRequest {
    pub vector: Vec<u32>,
    pub top_k: usize,
    pub filter: Filter,
    pub mode: SearchMode,
    pub probes: usize,
}

pub fn default_top_k() -> (k: usize)
    ensures
        k == 10,
{
    10
}

pub fn default_probes() -> (probes: usize)
    ensures
        probes == 4,
{
    4
}

impl QueryRequest {
    pub open spec fn query_verdict(self, schema: NamespaceConfig) -> Verdict {
        if schema.vector_verdict(self.vector@) is Err {
            schema.vector_verdict(self.vector@)
        } else if self.filter.filter_verdict() is Err {
            self.filter.filter_verdict()
        } else if !(1 <= self.top_k <= MAX_TOP_K && 1 <= self.probes <= 1024) {
            Err(ErrorView::Invalid("top_k must be 1..100 and probes 1..1024"@))
        } else {
            Ok(())
        }
    }

    /// Checks a vector query against the schema of its namespace.
    pub fn validate(&self, schema: &NamespaceConfig) -> (result: Result<()>)
        ensures
            verdict(result) == self.query_verdict(*schema),
    {
        match schema.validate_vector(self.vector.as_slice()) {
            Ok(_) => {},
            Err(e) => return Err(e),
        }
        match self.filter.validate() {
            Ok(_) => {},
            Err(e) => return Err(e),
        }
        if self.top_k < 1 || self.top_k > MAX_TOP_K || self.probes < 1 || self.probes > 1024 {
            return Err(invalid("top_k must be 1..100 and probes 1..1024"));
        }
        Ok(())
    }
}

#[derive(Debug)]
pub struct TextQuery {
    pub field: String,
    pub text: String,
    pub top_k: usize,
    pub filter: Filter,
}

impl TextQuery {
    pub open spec fn text_query_verdict(self, schema: NamespaceConfig) -> Verdict {
        if self.filter.filter_verdict() is Err {
            self.filter.filter_verdict()
        } else if !views(schema.text_fields@).contains(self.field@) {
            Err(ErrorView::Invalid("field is not in namespace text_fields"@))
        } else if !(1 <= self.top_k <= MAX_TOP_K) || encode_utf8(self.text@).len() > 4096 {
            Err(ErrorView::Invalid("top_k must be 1..100 and text at most 4096 bytes"@))
        } else {
            Ok(())
        }
    }

    /// Checks a text query against the schema of its namespace.
    pub fn validate(&self, schema: &NamespaceConfig) -> (result: Result<()>)
        ensures
            verdict(result) == self.text_query_verdict(*schema),
    {
        match self.filter.validate() {
            Ok(_) => {},
            Err(e) => return Err(e),
        }
        if !contains_text(&schema.text_fields, self.field.as_str()) {
            return Err(invalid("field is not in namespace text_fields"));
        }
        let length = self.text.as_str().as_bytes().len();
        if self.top_k < 1 || self.top_k > MAX_TOP_K || length > 4096 {
            return Err(invalid("top_k must be 1..100 and text at most 4096 bytes"));
        }
        Ok(())
    }
}

/// A ranked document: `score` holds the bits of a double, and larger is better.
#[derive(Debug)]
pub struct SearchHit {
    pub id: String,
    pub score: u64,
    pub attributes: TextMap<Json>,
}

#[derive(Debug)]
pub struct QueryResult {
    pub matches: Vec<SearchHit>,
    pub scanned_documents: usize,
    pub plan: String,
    pub revision: u64,
    pub indexed_revision: u64,
}

// ---------------------------------------------------------------------------
// Pages
// ---------------------------------------------------------------------------
#[derive(Debug)]
pub struct PageRequest {
    pub limit: usize,
    pub after: Option<String>,
}

impl Default for PageRequest {
    fn default() -> (page: Self)
        ensures
            page.limit == 100,
            page.after is None,
    {
        PageRequest { limit: 100, after: None }
    }
}

impl PageRequest {
    pub open spec fn page_verdict(self) -> Verdict {
        if !(1 <= self.limit <= MAX_PAGE_SIZE) {
            Err(ErrorView::Invalid("limit must be between 1 and 1000"@))
        } else if self.after is Some {
            id_verdict(self.after->0@)
        } else {
            Ok(())
        }
    }

    pub fn validate(&self) -> (result: Result<()>)
        ensures
            verdict(result) == self.page_verdict(),
    {
        if self.limit < 1 || self.limit > MAX_PAGE_SIZE {
            return Err(invalid("limit must be between 1 and 1000"));
        }
        if let Some(after) = &self.after {
            return validate_id(after.as_str());
        }
        Ok(())
    }
}

#[derive(Debug)]
pub struct Page<T> {
    pub items: Vec<T>,
    pub next_cursor: Option<String>,
}

// ---------------------------------------------------------------------------
// What is accepted
// ---------------------------------------------------------------------------
/// An ID is accepted if it has 1 to 128 characters, each an ASCII letter, a digit,
/// an underscore or a hyphen.
pub proof fn law_ids_accepted(id: Seq<char>)
    ensures
        id_verdict(id) is Ok <==> valid_id(id),
        valid_id(id) <==> 1 <= id.len() && id.len() <= 128 && forall|i: int|
            0 <= i < id.len() ==> {
                let c = #[trigger] id[i] as int;
                0x41 <= c <= 0x5a || 0x61 <= c <= 0x7a || 0x30 <= c <= 0x39 || c == 0x5f || c
                    == 0x2d
            },
        valid_id(id) ==> forall|i: int| 0 <= i < id.len() ==> #[trigger] id[i] != '/',
{
    if valid_id(id) {
        assert forall|i: int| 0 <= i < id.len() implies ({
            let c = #[trigger] id[i] as int;
            0x41 <= c <= 0x5a || 0x61 <= c <= 0x7a || 0x30 <= c <= 0x39 || c == 0x5f || c == 0x2d
        }) && id[i] != '/' by {
            assert(id_char(id[i]));
        }
    } else if 1 <= id.len() <= 128 {
        let i = choose|i: int| 0 <= i < id.len() && !id_char(#[trigger] id[i]);
        assert(!({
            let c = id[i] as int;
            0x41 <= c <= 0x5a || 0x61 <= c <= 0x7a || 0x30 <= c <= 0x39 || c == 0x5f || c == 0x2d
        }));
    }
}

/// A schema is accepted if it has no dimensions or 1 to 4096 of them, and at most
/// 16 text fields with different valid names.
pub proof fn law_schemas_accepted(schema: NamespaceConfig)
    ensures
        schema.config_verdict() is Ok <==> {
            let fields = schema.text_fields@;
            &&& schema.dimensions is None || 1 <= schema.dimensions->0 <= 4096
            &&& fields.len() <= 16
            &&& forall|i: int| 0 <= i < fields.len() ==> valid_id((#[trigger] fields[i])@)
            &&& forall|i: int, j: int|
                0 <= i < j < fields.len() ==> (#[trigger] fields[i])@ != (#[trigger] fields[j])@
        },
{
    let fields = schema.text_fields@;
    let names = views(fields);
    assert forall|i: int| 0 <= i < fields.len() implies (#[trigger] fields[i])@ == names[i] by {}
    if schema.text_fields_valid() {
        assert forall|i: int| 0 <= i < fields.len() implies valid_id((#[trigger] fields[i])@) by {
            assert(valid_id(names[i]));
        }
        assert forall|i: int, j: int| 0 <= i < j < fields.len() implies (#[trigger] fields[i])@ != (
        #[trigger] fields[j])@ by {
            assert(names[i] != names[j]);
        }
    }
    if (forall|i: int| 0 <= i < fields.len() ==> valid_id((#[trigger] fields[i])@)) && (forall|
        i: int,
        j: int,
    |
        0 <= i < j < fields.len() ==> (#[trigger] fields[i])@ != (#[trigger] fields[j])@) {
        assert forall|i: int| 0 <= i < names.len() implies valid_id(#[trigger] names[i]) by {
            assert(valid_id(fields[i]@));
        }
        assert forall|i: int, j: int|
            0 <= i < names.len() && 0 <= j < names.len() && i != j implies names[i] != names[j] by {
            if i < j {
                assert(fields[i]@ != fields[j]@);
            } else {
                assert(fields[j]@ != fields[i]@);
            }
        }
    }
}

/// A vector is accepted if it has as many components as the schema has
/// dimensions, all of them finite, and for cosine similarity not all of them
/// zero.
pub proof fn law_vectors_accepted(schema: NamespaceConfig, vector: Seq<u32>)
    ensures
        schema.accepts_vector(vector) <==> schema.vector_verdict(vector) is Ok,
        schema.accepts_vector(vector) <==> {
            &&& schema.dimensions is Some && schema.dimensions->0 == vector.len()
            &&& forall|i: int|
                0 <= i < vector.len() ==> (#[trigger] vector[i]) % 0x8000_0000 / 0x80_0000 != 0xff
            &&& schema.metric == Metric::Cosine ==> exists|i: int|
                0 <= i < vector.len() && (#[trigger] vector[i]) % 0x8000_0000 != 0
        },
{
    assert(finite_vector(vector) <==> forall|i: int|
        0 <= i < vector.len() ==> (#[trigger] vector[i]) % 0x8000_0000 / 0x80_0000 != 0xff) by {
        if !finite_vector(vector) {
            let i = choose|i: int| 0 <= i < vector.len() && !finite_single(#[trigger] vector[i]);
            assert(vector[i] % 0x8000_0000 / 0x80_0000 == 0xff);
        }
    }
    if !zero_vector(vector) {
        let i = choose|i: int| 0 <= i < vector.len() && !zero_single(#[trigger] vector[i]);
        assert(vector[i] % 0x8000_0000 != 0);
    }
}

/// Two schemas are the same if they agree on the dimensions, the metric and the
/// text fields, in order.
pub proof fn law_schemas_compared(a: NamespaceConfig, b: NamespaceConfig)
    ensures
        a.same_as(b) <==> {
            &&& a.dimensions == b.dimensions
            &&& a.metric == b.metric
            &&& a.text_fields@.len() == b.text_fields@.len()
            &&& forall|i: int|
                0 <= i < a.text_fields@.len() ==> (#[trigger] a.text_fields@[i])@
                    == b.text_fields@[i]@
        },
{
    let x = views(a.text_fields@);
    let y = views(b.text_fields@);
    if x == y {
        assert(x.len() == a.text_fields@.len() && y.len() == b.text_fields@.len());
        assert forall|i: int| 0 <= i < a.text_fields@.len() implies (#[trigger] a.text_fields@[i])@
            == b.text_fields@[i]@ by {
            assert(x[i] == y[i]);
        }
    }
    if a.text_fields@.len() == b.text_fields@.len() && forall|i: int|
        0 <= i < a.text_fields@.len() ==> (#[trigger] a.text_fields@[i])@ == b.text_fields@[i]@ {
        assert forall|i: int| 0 <= i < x.len() implies x[i] == y[i] by {
            assert(a.text_fields@[i]@ == b.text_fields@[i]@);
        }
        assert(x =~= y);
    }
}

/// A range has bounds, which are finite and ordered, and admits the numbers
/// between them, both bounds included.
pub proof fn law_ranges_are_inclusive(range: NumericRange, value: u64)
    ensures
        range.valid() <==> {
            &&& range.gte is Some || range.lte is Some
            &&& range.gte is Some ==> finite_double(range.gte->0)
            &&& range.lte is Some ==> finite_double(range.lte->0)
            &&& range.gte is Some && range.lte is Some ==> double_value(range.gte->0)
                <= double_value(range.lte->0)
        },
        range.valid() && finite_double(value) ==> (range.admits(value) <==> {
            &&& range.gte is Some ==> double_value(range.gte->0) <= double_value(value)
            &&& range.lte is Some ==> double_value(value) <= double_value(range.lte->0)
        }),
{
    if range.gte is Some {
        law_doubles_compare_as_numbers(value, range.gte->0);
        law_doubles_compare_as_numbers(range.gte->0, value);
    }
    if range.lte is Some {
        law_doubles_compare_as_numbers(range.lte->0, value);
        law_doubles_compare_as_numbers(value, range.lte->0);
    }
    if range.gte is Some && range.lte is Some {
        law_doubles_compare_as_numbers(range.lte->0, range.gte->0);
        law_doubles_compare_as_numbers(range.gte->0, range.lte->0);
    }
}

/// A document passes a filter if it has an equal value for every field that the
/// filter names, and a number within the bounds for every range. A missing
/// attribute fails either, and a filter that names nothing passes everything.
pub proof fn law_filters_select(filter: Filter, attributes: Map<Seq<char>, Json>)
    ensures
        filter.accepts(attributes) <==> {
            &&& forall|field: Seq<char>| #[trigger]
                filter.eq@.contains_key(field) ==> attributes.contains_key(field) && json_equal(
                    attributes[field]@,
                    filter.eq@[field]@,
                )
            &&& forall|field: Seq<char>| #[trigger]
                filter.range@.contains_key(field) ==> attributes.contains_key(field)
                    && as_double_spec(attributes[field]@) is Some && filter.range@[field].admits(
                    as_double_spec(attributes[field]@)->0,
                )
        },
        filter.unrestricted() <==> forall|field: Seq<char>|
            !(#[trigger] filter.eq@.contains_key(field)) && !filter.range@.contains_key(field),
        filter.unrestricted() ==> filter.accepts(attributes),
{
    assert forall|field: Seq<char>| #[trigger] filter.eq@.contains_key(field) implies eq_holds(
        attributes,
        field,
        filter.eq@[field],
    ) == (attributes.contains_key(field) && json_equal(
        attributes[field]@,
        filter.eq@[field]@,
    )) by {}
    if filter.accepts(attributes) {
        assert forall|field: Seq<char>| #[trigger] filter.eq@.contains_key(field) implies eq_holds(
            attributes,
            field,
            filter.eq@[field],
        ) by {}
        assert forall|field: Seq<char>| #[trigger]
            filter.range@.contains_key(field) implies range_holds(
            attributes,
            field,
            filter.range@[field],
        ) by {}
    }
    if filter.unrestricted() {
        assert forall|field: Seq<char>|
            !(#[trigger] filter.eq@.contains_key(field)) && !filter.range@.contains_key(field) by {
            assert(!filter.eq@.dom().contains(field) && !filter.range@.dom().contains(field));
        }
    } else if forall|field: Seq<char>|
        !(#[trigger] filter.eq@.contains_key(field)) && !filter.range@.contains_key(field) {
        assert(filter.eq@.dom() =~= Set::<Seq<char>>::empty());
        assert forall|field: Seq<char>| !filter.range@.dom().contains(field) by {
            assert(!filter.eq@.contains_key(field));
        }
        assert(filter.range@.dom() =~= Set::<Seq<char>>::empty());
    }
}

/// A filter is accepted with at most 64 predicates, all of whose ranges are valid.
pub proof fn law_filters_accepted(filter: Filter)
    ensures
        filter.filter_verdict() is Ok <==> filter.eq@.dom().len() + filter.range@.dom().len() <= 64
            && forall|field: Seq<char>| #[trigger]
            filter.range@.contains_key(field) ==> filter.range@[field].valid(),
{
    if filter.filter_verdict() is Ok {
        assert forall|field: Seq<char>| #[trigger]
            filter.range@.contains_key(field) implies filter.range@[field].valid() by {}
    }
}

/// A vector query is accepted with an acceptable vector and filter, 1 to 100 hits
/// and 1 to 1024 probes.
pub proof fn law_queries_accepted(query: QueryRequest, schema: NamespaceConfig)
    ensures
        query.query_verdict(schema) is Ok <==> {
            &&& schema.accepts_vector(query.vector@)
            &&& query.filter.filter_verdict() is Ok
            &&& 1 <= query.top_k && query.top_k <= 100
            &&& 1 <= query.probes && query.probes <= 1024
        },
{
}

/// A text query is accepted on a declared field, with an acceptable filter, 1 to
/// 100 hits and at most 4096 bytes of text.
pub proof fn law_text_queries_accepted(query: TextQuery, schema: NamespaceConfig)
    ensures
        query.text_query_verdict(schema) is Ok <==> {
            &&& query.filter.filter_verdict() is Ok
            &&& exists|i: int|
                0 <= i < schema.text_fields@.len() && (#[trigger] schema.text_fields@[i])@
                    == query.field@
            &&& 1 <= query.top_k && query.top_k <= 100
            &&& encode_utf8(query.text@).len() <= 4096
        },
{
    let fields = schema.text_fields@;
    let names = views(fields);
    if names.contains(query.field@) {
        let i = choose|i: int| 0 <= i < names.len() && names[i] == query.field@;
        assert(fields[i]@ == query.field@);
    }
    if exists|i: int| 0 <= i < fields.len() && (#[trigger] fields[i])@ == query.field@ {
        let i = choose|i: int| 0 <= i < fields.len() && (#[trigger] fields[i])@ == query.field@;
        assert(names[i] == query.field@);
    }
}

/// A page has 1 to 1000 items and, if it follows another, a valid ID as cursor.
pub proof fn law_pages_accepted(page: PageRequest)
    ensures
        page.page_verdict() is Ok <==> 1 <= page.limit && page.limit <= 1000 && (page.after is Some
            ==> valid_id(page.after->0@)),
{
}

/// A refused request is told what is wrong with it, as a mistake of the caller.
pub proof fn law_refusals_say_why(
    id: Seq<char>,
    schema: NamespaceConfig,
    vector: Seq<u32>,
    filter: Filter,
    page: PageRequest,
)
    ensures
        id_verdict(id) is Err ==> id_verdict(id) == Err::<(), ErrorView>(
            ErrorView::Invalid(
                "IDs must contain 1–128 ASCII letters, digits, underscores, or hyphens"@,
            ),
        ),
        schema.config_verdict() is Err ==> schema.config_verdict() == Err::<(), ErrorView>(
            ErrorView::Invalid(
                if schema.dimensions is Some && (schema.dimensions->0 < 1 || schema.dimensions->0
                    > 4096) {
                    "dimensions must be between 1 and 4096"@
                } else {
                    "text_fields must be at most 16 unique ID-shaped names"@
                },
            ),
        ),
        schema.vector_verdict(vector) is Err ==> schema.vector_verdict(vector) == Err::<
            (),
            ErrorView,
        >(
            ErrorView::Invalid(
                if schema.dimensions is None {
                    "namespace has no vector dimensions"@
                } else if schema.dimensions->0 == vector.len() && finite_vector(vector) {
                    "cosine vectors must have nonzero length"@
                } else {
                    "vector must have "@ + decimal(schema.dimensions->0 as nat)
                        + " finite f32 components"@
                },
            ),
        ),
        filter.filter_verdict() is Err ==> filter.filter_verdict() == Err::<(), ErrorView>(
            ErrorView::Invalid(
                if filter.eq@.dom().len() + filter.range@.dom().len() > 64 {
                    "at most 64 filter predicates are allowed"@
                } else {
                    "ranges require finite, ordered gte and/or lte bounds"@
                },
            ),
        ),
        page.page_verdict() is Err ==> page.page_verdict() == if page.limit < 1 || page.limit
            > 1000 {
            Err::<(), ErrorView>(ErrorView::Invalid("limit must be between 1 and 1000"@))
        } else {
            id_verdict(page.after->0@)
        },
{
}

/// A refused query is told the first thing that is wrong with it: its vector or
/// its field, its filter, and then its limits.
pub proof fn law_refused_queries_say_why(
    query: QueryRequest,
    text: TextQuery,
    schema: NamespaceConfig,
)
    ensures
        query.query_verdict(schema) is Err ==> query.query_verdict(schema) == if
            !schema.accepts_vector(query.vector@) {
            schema.vector_verdict(query.vector@)
        } else if query.filter.filter_verdict() is Err {
            query.filter.filter_verdict()
        } else {
            Err::<(), ErrorView>(ErrorView::Invalid("top_k must be 1..100 and probes 1..1024"@))
        },
        text.text_query_verdict(schema) is Err ==> text.text_query_verdict(schema) == if
            text.filter.filter_verdict() is Err {
            text.filter.filter_verdict()
        } else if !views(schema.text_fields@).contains(text.field@) {
            Err::<(), ErrorView>(ErrorView::Invalid("field is not in namespace text_fields"@))
        } else {
            Err::<(), ErrorView>(
                ErrorView::Invalid("top_k must be 1..100 and text at most 4096 bytes"@),
            )
        },
{
}

} // verus!
