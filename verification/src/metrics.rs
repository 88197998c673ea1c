//! Prometheus exposition text.
use vstd::prelude::*;
use vstd::string::*;

use crate::text::{decimal, push_decimal};

verus! {

/// The value of a metric. Real numbers are given by their decimal text.
pub enum MetricValue {
    Counter(u64),
    Gauge(i64),
    UpDownCounter(i64),
    Histogram { count: u64, sum: String, boundaries: Vec<String>, bucket_counts: Vec<u64> },
}

pub struct Label {
    pub key: String,
    pub value: String,
}

pub struct MetricSample {
    pub name: String,
    pub labels: Vec<Label>,
    pub value: MetricValue,
}

// ---------------------------------------------------------------------------
// Pieces
// ---------------------------------------------------------------------------
/// The counter of an HTTP status: 0 for 1xx and below, up to 4 for 5xx and above.
pub fn status_class(status: u16) -> (class: usize)
    ensures
        class == if status < 200 {
            0int
        } else if status >= 500 {
            4
        } else {
            status / 100 - 1
        },
        class == class_of(status as int),
        class < 5,
{
    let hundreds: usize = (status / 100) as usize;
    if hundreds < 1 {
        0
    } else if hundreds > 5 {
        4
    } else {
        hundreds - 1
    }
}

/// The label of a status class.
pub fn class_label(class: u64) -> (label: String)
    ensures
        label@ == decimal(class as nat) + "xx"@,
{
    let mut label = String::new();
    push_decimal(&mut label, class);
    label.append("xx");
    assert(label@ =~= decimal(class as nat) + "xx"@);
    label
}

pub open spec fn metric_char(c: char) -> char {
    if c == '.' || c == '-' {
        '_'
    } else {
        c
    }
}

/// A name with dots and hyphens replaced by underscores.
pub open spec fn metric_name(name: Seq<char>) -> Seq<char> {
    name.map_values(|c: char| metric_char(c))
}

pub fn metric_name_of(name: &str) -> (text: String)
    ensures
        text@ == metric_name(name@),
{
    let mut text = String::new();
    assert(text@ =~= metric_name(name@.take(0)));
    for c in it: name.chars()
        invariant
            it.seq() == name@,
            text@ == metric_name(name@.take(it.index())),
    {
        let ghost i = it.index();
        if c == '.' || c == '-' {
            text.push('_');
        } else {
            text.push(c);
        }
        assert(text@ =~= metric_name(name@.take(i + 1)));
    }
    assert(name@.take(name@.len() as int) =~= name@);
    text
}

pub open spec fn escaped_char(c: char) -> Seq<char> {
    if c == '\\' {
        seq!['\\', '\\']
    } else if c == '"' {
        seq!['\\', '"']
    } else if c == '\n' {
        seq!['\\', 'n']
    } else {
        seq![c]
    }
}

/// A label value with backslashes, quotes and line feeds escaped.
pub open spec fn escaped(text: Seq<char>) -> Seq<char>
    decreases text.len(),
{
    if text.len() == 0 {
        Seq::empty()
    } else {
        escaped(text.drop_last()) + escaped_char(text.last())
    }
}

pub fn escape(value: &str) -> (text: String)
    ensures
        text@ == escaped(value@),
{
    let mut text = String::new();
    assert(text@ =~= escaped(value@.take(0)));
    for c in it: value.chars()
        invariant
            it.seq() == value@,
            text@ == escaped(value@.take(it.index())),
    {
        let ghost i = it.index();
        let ghost before = text@;
        proof {
            assert(value@.take(i + 1).drop_last() =~= value@.take(i));
            assert(value@.take(i + 1).last() == c);
        }
        if c == '\\' {
            text.push('\\');
            text.push('\\');
        } else if c == '"' {
            text.push('\\');
            text.push('"');
        } else if c == '\n' {
            text.push('\\');
            text.push('n');
        } else {
            text.push(c);
        }
        assert(text@ =~= before + escaped_char(c));
    }
    assert(value@.take(value@.len() as int) =~= value@);
    text
}

/// Escaped text holds no line feed, so every sample stays on its line.
pub proof fn law_escaped_on_one_line(text: Seq<char>)
    ensures
        forall|i: int| 0 <= i < escaped(text).len() ==> #[trigger] escaped(text)[i] != '\n',
    decreases text.len(),
{
    if text.len() > 0 {
        law_escaped_on_one_line(text.drop_last());
        let front = escaped(text.drop_last());
        let last = escaped_char(text.last());
        assert forall|i: int| 0 <= i < escaped(text).len() implies #[trigger] escaped(text)[i]
            != '\n' by {
            if i < front.len() {
                assert(escaped(text)[i] == front[i]);
            } else {
                assert(escaped(text)[i] == last[i - front.len()]);
            }
        }
    }
}

pub open spec fn signed_decimal(n: int) -> Seq<char> {
    if n < 0 {
        seq!['-'] + decimal((-n) as nat)
    } else {
        decimal(n as nat)
    }
}

fn push_signed(out: &mut String, n: i64)
    ensures
        final(out)@ == old(out)@ + signed_decimal(n as int),
{
    let ghost before = out@;
    if n < 0 {
        out.push('-');
        let size: i128 = -(n as i128);
        push_decimal(out, size as u64);
        assert(out@ =~= before + signed_decimal(n as int));
    } else {
        push_decimal(out, n as u64);
    }
}

// ---------------------------------------------------------------------------
// Labels
// ---------------------------------------------------------------------------
pub open spec fn label_text(label: Label) -> Seq<char> {
    label.key@ + seq!['=', '"'] + escaped(label.value@) + seq!['"']
}

/// The first `n` labels, separated by commas.
pub open spec fn label_list(labels: Seq<Label>, n: nat) -> Seq<char>
    decreases n,
{
    if n == 0 {
        Seq::empty()
    } else if n == 1 {
        label_text(labels[0])
    } else {
        label_list(labels, (n - 1) as nat) + seq![','] + label_text(labels[n - 1])
    }
}

pub open spec fn label_suffix(labels: Seq<Label>) -> Seq<char> {
    if labels.len() == 0 {
        Seq::empty()
    } else {
        seq!['{'] + label_list(labels, labels.len()) + seq!['}']
    }
}

fn labels_of(labels: &Vec<Label>) -> (text: String)
    ensures
        text@ == label_list(labels@, labels@.len()),
{
    let mut text = String::new();
    let mut i: usize = 0;
    assert(text@ =~= label_list(labels@, 0));
    while i < labels.len()
        invariant
            i <= labels@.len(),
            text@ == label_list(labels@, i as nat),
        decreases labels@.len() - i,
    {
        let ghost before = text@;
        if i > 0 {
            text.push(',');
        }
        text.append(labels[i].key.as_str());
        text.push('=');
        text.push('"');
        text.append(escape(labels[i].value.as_str()).as_str());
        text.push('"');
        proof {
            if i == 0 {
                assert(text@ =~= label_text(labels@[0]));
            } else {
                assert(text@ =~= before + seq![','] + label_text(labels@[i as int]));
            }
        }
        i += 1;
    }
    text
}

// ---------------------------------------------------------------------------
// Samples
// ---------------------------------------------------------------------------
pub open spec fn sample_line(name: Seq<char>, suffix: Seq<char>, value: Seq<char>) -> Seq<char> {
    name + suffix + seq![' '] + value + seq!['\n']
}

/// How many observations fell into the first `n` buckets.
pub open spec fn cumulative(counts: Seq<u64>, n: nat) -> nat
    decreases n,
{
    if n == 0 {
        0
    } else {
        cumulative(counts, (n - 1) as nat) + counts[n - 1] as nat
    }
}

pub open spec fn bucket_bound(boundaries: Seq<String>, i: int) -> Seq<char> {
    if i < boundaries.len() {
        boundaries[i]@
    } else {
        "+Inf"@
    }
}

pub open spec fn bucket_labels(labels: Seq<char>, bound: Seq<char>) -> Seq<char> {
    seq!['{'] + (if labels.len() == 0 {
        Seq::empty()
    } else {
        labels + seq![',']
    }) + "le=\""@ + bound + seq!['"', '}']
}

/// The lines of the first `n` buckets: each counts what its bound includes.
pub open spec fn bucket_lines(
    name: Seq<char>,
    labels: Seq<char>,
    boundaries: Seq<String>,
    counts: Seq<u64>,
    n: nat,
) -> Seq<char>
    decreases n,
{
    if n == 0 {
        Seq::empty()
    } else {
        bucket_lines(name, labels, boundaries, counts, (n - 1) as nat) + sample_line(
            name + "_bucket"@,
            bucket_labels(labels, bucket_bound(boundaries, n - 1)),
            decimal(cumulative(counts, n)),
        )
    }
}

pub open spec fn sample_text(sample: MetricSample) -> Seq<char> {
    let name = metric_name(sample.name@);
    let suffix = label_suffix(sample.labels@);
    match sample.value {
        MetricValue::Counter(v) => sample_line(name, suffix, decimal(v as nat)),
        MetricValue::Gauge(v) => sample_line(name, suffix, signed_decimal(v as int)),
        MetricValue::UpDownCounter(v) => sample_line(name, suffix, signed_decimal(v as int)),
        MetricValue::Histogram { count, sum, boundaries, bucket_counts } => sample_line(
            name + "_count"@,
            suffix,
            decimal(count as nat),
        ) + sample_line(name + "_sum"@, suffix, sum@) + bucket_lines(
            name,
            label_list(sample.labels@, sample.labels@.len()),
            boundaries@,
            bucket_counts@,
            bucket_counts@.len(),
        ),
    }
}

pub open spec fn buckets_bounded(sample: MetricSample) -> bool {
    sample.value matches MetricValue::Histogram { bucket_counts, .. } ==> cumulative(
        bucket_counts@,
        bucket_counts@.len(),
    ) <= u64::MAX
}

proof fn lemma_cumulative_monotonic(counts: Seq<u64>, a: nat, b: nat)
    requires
        a <= b,
    ensures
        cumulative(counts, a) <= cumulative(counts, b),
    decreases b,
{
    if a < b {
        lemma_cumulative_monotonic(counts, a, (b - 1) as nat);
    }
}

fn push_line_start(out: &mut String, name: &str, part: &str, suffix: &str)
    ensures
        final(out)@ == old(out)@ + (name@ + part@ + suffix@ + seq![' ']),
{
    let ghost before = out@;
    out.append(name);
    out.append(part);
    out.append(suffix);
    out.push(' ');
    assert(out@ =~= before + (name@ + part@ + suffix@ + seq![' ']));
}

fn push_buckets(
    out: &mut String,
    name: &str,
    labels: &str,
    boundaries: &Vec<String>,
    counts: &Vec<u64>,
)
    requires
        cumulative(counts@, counts@.len()) <= u64::MAX,
    ensures
        final(out)@ == old(out)@ + bucket_lines(
            name@,
            labels@,
            boundaries@,
            counts@,
            counts@.len(),
        ),
{
    let ghost start = out@;
    let mut total: u64 = 0;
    let mut i: usize = 0;
    assert(start + bucket_lines(name@, labels@, boundaries@, counts@, 0) =~= start);
    while i < counts.len()
        invariant
            i <= counts@.len(),
            cumulative(counts@, counts@.len()) <= u64::MAX,
            total == cumulative(counts@, i as nat),
            out@ == start + bucket_lines(name@, labels@, boundaries@, counts@, i as nat),
        decreases counts@.len() - i,
    {
        let ghost before = out@;
        proof {
            lemma_cumulative_monotonic(counts@, (i + 1) as nat, counts@.len());
            crate::text::lemma_encode_empty(labels@);
        }
        total = total + counts[i];
        let mut suffix = String::new();
        suffix.push('{');
        if labels.as_bytes().len() != 0 {
            suffix.append(labels);
            suffix.push(',');
        }
        suffix.append("le=\"");
        if i < boundaries.len() {
            suffix.append(boundaries[i].as_str());
        } else {
            suffix.append("+Inf");
        }
        suffix.push('"');
        suffix.push('}');
        assert(suffix@ =~= bucket_labels(labels@, bucket_bound(boundaries@, i as int)));
        push_line_start(out, name, "_bucket", suffix.as_str());
        push_decimal(out, total);
        out.push('\n');
        proof {
            let line = sample_line(
                name@ + "_bucket"@,
                bucket_labels(labels@, bucket_bound(boundaries@, i as int)),
                decimal(cumulative(counts@, (i + 1) as nat)),
            );
            assert(out@ =~= before + line);
            assert(out@ =~= start + bucket_lines(
                name@,
                labels@,
                boundaries@,
                counts@,
                (i + 1) as nat,
            ));
        }
        i += 1;
    }
}

fn push_sample(out: &mut String, sample: &MetricSample)
    requires
        buckets_bounded(*sample),
    ensures
        final(out)@ == old(out)@ + sample_text(*sample),
{
    let ghost start = out@;
    let name = metric_name_of(sample.name.as_str());
    let labels = labels_of(&sample.labels);
    let mut suffix = String::new();
    if sample.labels.len() > 0 {
        suffix.push('{');
        suffix.append(labels.as_str());
        suffix.push('}');
    }
    assert(suffix@ =~= label_suffix(sample.labels@));
    let ghost n = name@;
    let ghost s = suffix@;
    proof {
        reveal_strlit("");
        assert(n + ""@ =~= n);
    }
    match &sample.value {
        MetricValue::Counter(v) => {
            push_line_start(out, name.as_str(), "", suffix.as_str());
            push_decimal(out, *v);
            out.push('\n');
            assert(out@ =~= start + sample_line(n, s, decimal(*v as nat)));
        },
        MetricValue::Gauge(v) => {
            push_line_start(out, name.as_str(), "", suffix.as_str());
            push_signed(out, *v);
            out.push('\n');
            assert(out@ =~= start + sample_line(n, s, signed_decimal(*v as int)));
        },
        MetricValue::UpDownCounter(v) => {
            push_line_start(out, name.as_str(), "", suffix.as_str());
            push_signed(out, *v);
            out.push('\n');
            assert(out@ =~= start + sample_line(n, s, signed_decimal(*v as int)));
        },
        MetricValue::Histogram { count, sum, boundaries, bucket_counts } => {
            push_line_start(out, name.as_str(), "_count", suffix.as_str());
            push_decimal(out, *count);
            out.push('\n');
            let ghost first = sample_line(n + "_count"@, s, decimal(*count as nat));
            assert(out@ =~= start + first);
            push_line_start(out, name.as_str(), "_sum", suffix.as_str());
            out.append(sum.as_str());
            out.push('\n');
            let ghost second = sample_line(n + "_sum"@, s, sum@);
            assert(out@ =~= start + first + second);
            push_buckets(out, name.as_str(), labels.as_str(), boundaries, bucket_counts);
            assert(out@ =~= start + sample_text(*sample));
        },
    }
}

pub open spec fn samples_text(samples: Seq<MetricSample>, n: nat) -> Seq<char>
    decreases n,
{
    if n == 0 {
        Seq::empty()
    } else {
        samples_text(samples, (n - 1) as nat) + sample_text(samples[n - 1])
    }
}

/// The exposition of all samples and of the durable sequence.
pub fn prometheus(samples: &Vec<MetricSample>, durable_sequence: u64) -> (text: String)
    requires
        forall|i: int| 0 <= i < samples@.len() ==> buckets_bounded(#[trigger] samples@[i]),
    ensures
        text@ == samples_text(samples@, samples@.len()) + "gm_durable_sequence "@ + decimal(
            durable_sequence as nat,
        ) + seq!['\n'],
{
    let mut text = String::new();
    let mut i: usize = 0;
    assert(text@ =~= samples_text(samples@, 0));
    while i < samples.len()
        invariant
            i <= samples@.len(),
            forall|k: int| 0 <= k < samples@.len() ==> buckets_bounded(#[trigger] samples@[k]),
            text@ == samples_text(samples@, i as nat),
        decreases samples@.len() - i,
    {
        assert(buckets_bounded(samples@[i as int]));
        push_sample(&mut text, &samples[i]);
        i += 1;
    }
    text.append("gm_durable_sequence ");
    push_decimal(&mut text, durable_sequence);
    text.push('\n');
    assert(text@ =~= samples_text(samples@, samples@.len()) + "gm_durable_sequence "@ + decimal(
        durable_sequence as nat,
    ) + seq!['\n']);
    text
}

// ---------------------------------------------------------------------------
// What the text says
// ---------------------------------------------------------------------------
/// The text that an escaped one stands for: a backslash makes the letter after it
/// a newline or leaves it as it is.
pub open spec fn unescaped(text: Seq<char>) -> Seq<char>
    decreases text.len(),
{
    if text.len() == 0 {
        Seq::empty()
    } else if text[0] == '\\' && text.len() > 1 {
        seq![
            if text[1] == 'n' {
                '\n'
            } else {
                text[1]
            },
        ] + unescaped(text.skip(2))
    } else {
        seq![text[0]] + unescaped(text.skip(1))
    }
}

proof fn lemma_unescaped_concat(c: char, rest: Seq<char>)
    ensures
        unescaped(escaped_char(c) + rest) == seq![c] + unescaped(rest),
{
    let text = escaped_char(c) + rest;
    if escaped_char(c).len() == 2 {
        assert(text.skip(2) =~= rest);
    } else {
        assert(text.skip(1) =~= rest);
    }
}

proof fn lemma_escaped_front(text: Seq<char>)
    requires
        text.len() > 0,
    ensures
        escaped(text) == escaped_char(text[0]) + escaped(text.skip(1)),
    decreases text.len(),
{
    if text.len() == 1 {
        assert(text.drop_last() =~= Seq::<char>::empty());
        assert(text.skip(1) =~= Seq::<char>::empty());
        assert(escaped(text) =~= escaped_char(text[0]) + escaped(text.skip(1)));
    } else {
        lemma_escaped_front(text.drop_last());
        assert(text.drop_last().skip(1) =~= text.skip(1).drop_last());
        assert(text.skip(1).last() == text.last());
        assert(escaped(text) =~= escaped_char(text[0]) + escaped(text.skip(1)));
    }
}

/// Escaping loses nothing: every label can be read back.
pub proof fn law_escapes_read_back(text: Seq<char>)
    ensures
        unescaped(escaped(text)) == text,
        forall|i: int| 0 <= i < escaped(text).len() && escaped(text)[i] == '"' ==> i > 0
            && #[trigger] escaped(text)[i - 1] == '\\',
    decreases text.len(),
{
    if text.len() == 0 {
        assert(unescaped(escaped(text)) =~= text);
    } else {
        lemma_escaped_front(text);
        law_escapes_read_back(text.skip(1));
        lemma_unescaped_concat(text[0], escaped(text.skip(1)));
        assert(seq![text[0]] + text.skip(1) =~= text);
        let front = escaped_char(text[0]);
        let rest = escaped(text.skip(1));
        let all = front + rest;
        assert forall|i: int| 0 <= i < all.len() && all[i] == '"' implies i > 0 && #[trigger] all[i
            - 1] == '\\' by {
            if i >= front.len() {
                assert(rest[i - front.len()] == '"');
                assert(rest[i - front.len() - 1] == '\\');
            }
        }
    }
}

/// The name of a metric keeps every character but dots and hyphens, which become
/// underscores.
pub proof fn law_metric_names(name: Seq<char>, i: int)
    ensures
        metric_name(name).len() == name.len(),
        0 <= i < name.len() ==> metric_name(name)[i] == if name[i] == '.' || name[i] == '-' {
            '_'
        } else {
            name[i]
        },
{
}

/// Histogram buckets count everything up to their bound: each has its own count
/// more than the one before.
pub proof fn law_buckets_accumulate(counts: Seq<u64>, n: nat)
    ensures
        cumulative(counts, 0) == 0,
        cumulative(counts, n + 1) == cumulative(counts, n) + counts[n as int],
{
}

/// A sample without a histogram is one line: the name, the labels and the number.
/// Labels stand in braces, separated by commas, and there are no braces without
/// labels.
pub proof fn law_sample_lines(sample: MetricSample, label: Label)
    requires
        !(sample.value is Histogram),
    ensures
        ({
            let name = metric_name(sample.name@);
            let labels = label_suffix(sample.labels@);
            sample_text(sample) == name + labels + seq![' '] + match sample.value {
                MetricValue::Counter(v) => decimal(v as nat),
                MetricValue::Gauge(v) => signed_decimal(v as int),
                MetricValue::UpDownCounter(v) => signed_decimal(v as int),
                _ => Seq::empty(),
            } + seq!['\n']
        }),
        label_suffix(Seq::empty()) == Seq::<char>::empty(),
        label_suffix(seq![label]) == seq!['{'] + label.key@ + seq!['=', '"'] + escaped(label.value@)
            + seq!['"', '}'],
{
    let one = seq![label];
    assert(one.len() == 1);
    assert(label_suffix(one) =~= seq!['{'] + label.key@ + seq!['=', '"'] + escaped(label.value@)
        + seq!['"', '}']);
}

/// A histogram is its count, its sum, and a line for each bucket, with the bound
/// of the bucket as a label and `+Inf` for the last one.
pub proof fn law_histogram_lines(
    sample: MetricSample,
    labels: Seq<char>,
    counts: Vec<u64>,
    boundaries: Vec<String>,
    n: nat,
)
    ensures
        sample.value matches MetricValue::Histogram { count, sum, boundaries, bucket_counts }
            ==> sample_text(sample) == metric_name(sample.name@) + "_count"@ + label_suffix(
            sample.labels@,
        ) + seq![' '] + decimal(count as nat) + seq!['\n'] + metric_name(sample.name@) + "_sum"@
            + label_suffix(sample.labels@) + seq![' '] + sum@ + seq!['\n'] + bucket_lines(
            metric_name(sample.name@),
            label_list(sample.labels@, sample.labels@.len()),
            boundaries@,
            bucket_counts@,
            bucket_counts@.len(),
        ),
        bucket_lines(sample.name@, labels, boundaries@, counts@, 0) == Seq::<char>::empty(),
        bucket_lines(
            sample.name@,
            labels,
            boundaries@,
            counts@,
            n + 1,
        ) == bucket_lines(sample.name@, labels, boundaries@, counts@, n) + sample.name@
            + "_bucket"@ + seq!['{'] + (if labels.len() == 0 {
            Seq::empty()
        } else {
            labels + seq![',']
        }) + "le=\""@ + (if n < boundaries@.len() {
            boundaries@[n as int]@
        } else {
            "+Inf"@
        }) + seq!['"', '}'] + seq![' '] + decimal(cumulative(counts@, n + 1)) + seq!['\n'],
{
    if let MetricValue::Histogram { count, sum, boundaries, bucket_counts } = sample.value {
        let name = metric_name(sample.name@);
        let suffix = label_suffix(sample.labels@);
        let lines = bucket_lines(
            name,
            label_list(sample.labels@, sample.labels@.len()),
            boundaries@,
            bucket_counts@,
            bucket_counts@.len(),
        );
        assert(sample_text(sample) =~= name + "_count"@ + suffix + seq![' '] + decimal(
            count as nat,
        ) + seq!['\n'] + name + "_sum"@ + suffix + seq![' '] + sum@ + seq!['\n'] + lines);
    }
    let bound = bucket_bound(boundaries@, n as int);
    let front = bucket_lines(sample.name@, labels, boundaries@, counts@, n);
    let own = if labels.len() == 0 {
        Seq::empty()
    } else {
        labels + seq![',']
    };
    assert(bucket_lines(sample.name@, labels, boundaries@, counts@, n + 1) =~= front
        + sample.name@ + "_bucket"@ + seq!['{'] + own + "le=\""@ + bound + seq!['"', '}'] + seq![' ']
        + decimal(cumulative(counts@, n + 1)) + seq!['\n']);
}

/// A negative number is written with a minus sign before its digits.
pub proof fn law_signed_numbers(n: nat)
    ensures
        signed_decimal(n as int) == decimal(n),
        n > 0 ==> signed_decimal(-n) == seq!['-'] + decimal(n),
{
}

/// The class of an HTTP status, from 0 for 1xx.
pub open spec fn class_of(status: int) -> int {
    vstd::math::clip(status / 100 - 1) as int - vstd::math::clip(status / 100 - 5) as int
}

/// Requests are counted by the hundreds of their status. What is below 100 counts
/// with the lowest class, what is above 599 with the highest.
pub proof fn law_statuses_are_classified(status: int)
    requires
        status >= 0,
    ensures
        100 <= status < 600 ==> 100 * (class_of(status) + 1) <= status < 100 * (class_of(status)
            + 2),
        status < 100 ==> class_of(status) == 0,
        status >= 600 ==> class_of(status) == 4,
{
}

/// Labels stand one after the other with commas between them, and samples without
/// anything between them.
pub proof fn law_lists_of_samples(labels: Seq<Label>, samples: Seq<MetricSample>, n: nat)
    ensures
        n >= 1 ==> label_list(labels, n + 1) == label_list(labels, n) + seq![',']
            + labels[n as int].key@ + seq!['=', '"'] + escaped(labels[n as int].value@) + seq!['"'],
        label_list(labels, 1) == labels[0].key@ + seq!['=', '"'] + escaped(labels[0].value@)
            + seq!['"'],
        labels.len() > 0 ==> label_suffix(labels) == seq!['{'] + label_list(labels, labels.len())
            + seq!['}'],
        samples_text(samples, 0) == Seq::<char>::empty(),
        samples_text(samples, n + 1) == samples_text(samples, n) + sample_text(samples[n as int]),
{
    if n >= 1 {
        assert(label_list(labels, n + 1) =~= label_list(labels, n) + seq![','] + labels[n as int].key@
            + seq!['=', '"'] + escaped(labels[n as int].value@) + seq!['"']);
    }
}

} // verus!
