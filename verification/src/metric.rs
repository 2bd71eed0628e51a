//! The metric data model and the wire-format codec.
//!
//! A metric line has the shape `name:value|type` with an optional
//! `|@rate` suffix on sampled counters. Values and rates travel as the
//! decimal text that appears on the wire, so that the encoder and the
//! decoder round-trip exactly.

use crate::text::{
    check_value, find_from, first_ix, has_char, is_digit, is_value, lemma_first_ix,
    lemma_first_ix_unique, lemma_value_chars,
};
use vstd::prelude::*;
use vstd::string::StringExecFns;

verus! {

/// The kind of an observation. A counter carries its sample rate as
/// decimal text, `"1"` for an unsampled counter.
pub enum MetricKind {
    Counter(String),
    Gauge,
    Timer,
    Histogram,
    KeyValue,
}

/// The mathematical model of a metric kind.
#[verifier::ext_equal]
pub enum MetricKindView {
    Counter(Seq<char>),
    Gauge,
    Timer,
    Histogram,
    KeyValue,
}

impl View for MetricKind {
    type V = MetricKindView;

    open spec fn view(&self) -> MetricKindView {
        match self {
            MetricKind::Counter(rate) => MetricKindView::Counter(rate@),
            MetricKind::Gauge => MetricKindView::Gauge,
            MetricKind::Timer => MetricKindView::Timer,
            MetricKind::Histogram => MetricKindView::Histogram,
            MetricKind::KeyValue => MetricKindView::KeyValue,
        }
    }
}

/// Why a line failed to decode.
#[derive(Debug, Clone, Copy, PartialEq, Eq, Structural)]
pub enum ParseError {
    /// The line has no `:`, or nothing stands before the first `:`, or
    /// the name holds a `|`.
    MissingName,
    /// Nothing stands between the first `:` and the first `|`, or there
    /// is no `|` at all.
    MissingValue,
    /// The value, or the sample rate after `@`, is not decimal text.
    InvalidValue,
    /// The type token is none of `c`, `g`, `ms`, `h`, `kv`.
    UnknownType,
}

/// A single observation: a dotted name, a decimal value, and a kind.
pub struct Metric {
    pub kind: MetricKind,
    pub name: String,
    pub value: String,
}

/// The mathematical model of a metric.
#[verifier::ext_equal]
pub struct MetricView {
    pub kind: MetricKindView,
    pub name: Seq<char>,
    pub value: Seq<char>,
}

impl View for Metric {
    type V = MetricView;

    open spec fn view(&self) -> MetricView {
        MetricView { kind: self.kind@, name: self.name@, value: self.value@ }
    }
}

/// A metric name is non-empty and holds neither of the wire format's
/// field separators `:` and `|`.
pub open spec fn valid_name(s: Seq<char>) -> bool {
    s.len() > 0 && forall|i: int| 0 <= i < s.len() ==> (#[trigger] s[i] != ':' && s[i] != '|')
}

impl MetricKindView {
    /// A counter's rate is decimal text; the other kinds carry nothing.
    pub open spec fn wf(self) -> bool {
        match self {
            MetricKindView::Counter(rate) => is_value(rate),
            _ => true,
        }
    }
}

impl MetricView {
    /// The data model's invariant: a well-formed name, a decimal value,
    /// and a decimal sample rate on counters.
    pub open spec fn wf(self) -> bool {
        valid_name(self.name) && is_value(self.value) && self.kind.wf()
    }

    /// The wire line that encodes this metric.
    pub open spec fn encoded(self) -> Seq<char> {
        self.name + seq![':'] + self.value + seq!['|'] + kind_tag(self.kind) + rate_suffix(
            self.kind,
        )
    }
}

impl Metric {
    /// The data model's invariant, on the executable type.
    pub open spec fn wf(self) -> bool {
        self@.wf()
    }
}

/// A kind as human-readable text: the kind's name, with the sample rate
/// in parentheses for counters.
pub open spec fn kind_describe(k: MetricKindView) -> Seq<char> {
    match k {
        MetricKindView::Counter(rate) => "Counter(s="@ + rate + ")"@,
        MetricKindView::Gauge => "Gauge"@,
        MetricKindView::Timer => "Timer"@,
        MetricKindView::Histogram => "Histogram"@,
        MetricKindView::KeyValue => "KeyValue"@,
    }
}

impl MetricKind {
    /// Render this kind as human-readable text.
    pub fn describe(&self) -> (r: String)
        ensures
            r@ == kind_describe(self@),
    {
        match self {
            MetricKind::Counter(rate) => {
                let mut s = String::from_str("Counter(s=");
                s.append(rate.as_str());
                s.append(")");
                s
            },
            MetricKind::Gauge => String::from_str("Gauge"),
            MetricKind::Timer => String::from_str("Timer"),
            MetricKind::Histogram => String::from_str("Histogram"),
            MetricKind::KeyValue => String::from_str("KeyValue"),
        }
    }
}

/// The type token of each kind.
pub open spec fn kind_tag(k: MetricKindView) -> Seq<char> {
    match k {
        MetricKindView::Counter(_) => seq!['c'],
        MetricKindView::Gauge => seq!['g'],
        MetricKindView::Timer => seq!['m', 's'],
        MetricKindView::Histogram => seq!['h'],
        MetricKindView::KeyValue => seq!['k', 'v'],
    }
}

/// The `|@rate` suffix: present on counters whose rate is written other
/// than as the single digit `1`.
pub open spec fn rate_suffix(k: MetricKindView) -> Seq<char> {
    match k {
        MetricKindView::Counter(rate) => if rate == seq!['1'] {
            Seq::empty()
        } else {
            seq!['|', '@'] + rate
        },
        _ => Seq::empty(),
    }
}

/// What decoding a wire line yields, step by step: the name before the
/// first `:`, the value before the first `|` of the remainder, the type
/// token, and for counters an optional `@rate` third segment. Segments
/// after the third are ignored.
pub open spec fn spec_decode(s: Seq<char>) -> Result<MetricView, ParseError> {
    let ci = first_ix(s, ':');
    if ci == s.len() || ci == 0 || has_char(s.subrange(0, ci), '|') {
        Err(ParseError::MissingName)
    } else {
        let name = s.subrange(0, ci);
        let rest = s.subrange(ci + 1, s.len() as int);
        let pi = first_ix(rest, '|');
        if pi == rest.len() || pi == 0 {
            Err(ParseError::MissingValue)
        } else {
            let value = rest.subrange(0, pi);
            if !is_value(value) {
                Err(ParseError::InvalidValue)
            } else {
                let after = rest.subrange(pi + 1, rest.len() as int);
                let ti = first_ix(after, '|');
                let tok = after.subrange(0, ti);
                if tok == seq!['m', 's'] {
                    Ok(MetricView { kind: MetricKindView::Timer, name, value })
                } else if tok == seq!['g'] {
                    Ok(MetricView { kind: MetricKindView::Gauge, name, value })
                } else if tok == seq!['h'] {
                    Ok(MetricView { kind: MetricKindView::Histogram, name, value })
                } else if tok == seq!['k', 'v'] {
                    Ok(MetricView { kind: MetricKindView::KeyValue, name, value })
                } else if tok == seq!['c'] {
                    spec_decode_rate(name, value, after, ti)
                } else {
                    Err(ParseError::UnknownType)
                }
            }
        }
    }
}

/// The sample rate of a decoded counter: absent, or an `@`-led third
/// segment whose remainder must be decimal text; a third segment without
/// the `@` leaves the default rate.
pub open spec fn spec_decode_rate(
    name: Seq<char>,
    value: Seq<char>,
    after: Seq<char>,
    ti: int,
) -> Result<MetricView, ParseError> {
    if ti == after.len() {
        Ok(MetricView { kind: MetricKindView::Counter(seq!['1']), name, value })
    } else {
        let tail = after.subrange(ti + 1, after.len() as int);
        let si = first_ix(tail, '|');
        let seg = tail.subrange(0, si);
        if seg.len() > 0 && seg[0] == '@' {
            let rate = seg.subrange(1, seg.len() as int);
            if is_value(rate) {
                Ok(MetricView { kind: MetricKindView::Counter(rate), name, value })
            } else {
                Err(ParseError::InvalidValue)
            }
        } else {
            Ok(MetricView { kind: MetricKindView::Counter(seq!['1']), name, value })
        }
    }
}

proof fn lemma_no_char_first_ix(s: Seq<char>, c: char)
    requires
        forall|i: int| 0 <= i < s.len() ==> s[i] != c,
    ensures
        first_ix(s, c) == s.len(),
{
    lemma_first_ix(s, c);
}

/// Round trip: decoding the encoding of any metric the data model admits
/// yields that metric back, name, value, and kind (the sample rate
/// included for counters).
pub proof fn lemma_round_trip(v: MetricView)
    requires
        v.wf(),
    ensures
        spec_decode(v.encoded()) == Ok::<MetricView, ParseError>(v),
{
    let s = v.encoded();
    let name = v.name;
    let value = v.value;
    let tag = kind_tag(v.kind);
    let suffix = rate_suffix(v.kind);
    let nl = name.len() as int;
    let vl = value.len() as int;
    assert(value.len() > 0);
    lemma_value_chars(value);

    // The name ends at the first `:`.
    assert(s[nl] == ':');
    assert forall|j: int| 0 <= j < nl implies #[trigger] s[j] == name[j] by {}
    lemma_first_ix_unique(s, ':', nl);
    assert(s.subrange(0, nl) =~= name);
    lemma_no_char_first_ix(name, '|');
    assert(!has_char(s.subrange(0, nl), '|'));

    // The remainder after the `:` is value, separator, tag and suffix.
    let rest = s.subrange(nl + 1, s.len() as int);
    assert(rest =~= value + seq!['|'] + tag + suffix);
    assert(rest[vl] == '|');
    assert forall|j: int| 0 <= j < vl implies #[trigger] rest[j] == value[j] by {}
    assert forall|j: int| 0 <= j < vl implies rest[j] != '|' by {
        assert(is_digit(value[j]) || value[j] == '.' || value[j] == '-');
    }
    lemma_first_ix_unique(rest, '|', vl);
    assert(rest.subrange(0, vl) =~= value);

    // What follows the value's `|` is the tag and the rate suffix.
    let after = rest.subrange(vl + 1, rest.len() as int);
    assert(after =~= tag + suffix);

    match v.kind {
        MetricKindView::Timer => {
            assert(after =~= seq!['m', 's']);
            lemma_no_char_first_ix(after, '|');
            assert(after.subrange(0, 2) =~= seq!['m', 's']);
            assert(MetricView {
                kind: MetricKindView::Timer,
                name: s.subrange(0, nl),
                value: rest.subrange(0, vl),
            } =~= v);
        },
        MetricKindView::Gauge => {
            assert(after =~= seq!['g']);
            lemma_no_char_first_ix(after, '|');
            assert(after.subrange(0, 1) =~= seq!['g']);
            assert(MetricView {
                kind: MetricKindView::Gauge,
                name: s.subrange(0, nl),
                value: rest.subrange(0, vl),
            } =~= v);
        },
        MetricKindView::Histogram => {
            assert(after =~= seq!['h']);
            lemma_no_char_first_ix(after, '|');
            assert(after.subrange(0, 1) =~= seq!['h']);
            assert(MetricView {
                kind: MetricKindView::Histogram,
                name: s.subrange(0, nl),
                value: rest.subrange(0, vl),
            } =~= v);
        },
        MetricKindView::KeyValue => {
            assert(after =~= seq!['k', 'v']);
            lemma_no_char_first_ix(after, '|');
            assert(after.subrange(0, 2) =~= seq!['k', 'v']);
            assert(MetricView {
                kind: MetricKindView::KeyValue,
                name: s.subrange(0, nl),
                value: rest.subrange(0, vl),
            } =~= v);
        },
        MetricKindView::Counter(rate) => {
            lemma_value_chars(rate);
            if rate == seq!['1'] {
                assert(after =~= seq!['c']);
                lemma_no_char_first_ix(after, '|');
                assert(after.subrange(0, 1) =~= seq!['c']);
                assert(MetricView {
                    kind: MetricKindView::Counter(seq!['1']),
                    name: s.subrange(0, nl),
                    value: rest.subrange(0, vl),
                } =~= v);
            } else {
                assert(after =~= seq!['c', '|', '@'] + rate);
                assert(after[0] == 'c');
                assert(after[1] == '|');
                lemma_first_ix_unique(after, '|', 1);
                assert(after.subrange(0, 1) =~= seq!['c']);
                let tail = after.subrange(2, after.len() as int);
                assert(tail =~= seq!['@'] + rate);
                assert forall|j: int| 0 <= j < tail.len() implies tail[j] != '|' by {
                    if j > 0 {
                        assert(tail[j] == rate[j - 1]);
                        assert(is_digit(rate[j - 1]) || rate[j - 1] == '.' || rate[j - 1] == '-');
                    }
                }
                lemma_no_char_first_ix(tail, '|');
                assert(tail.subrange(0, tail.len() as int) =~= tail);
                assert(tail[0] == '@');
                assert(tail.subrange(1, tail.len() as int) =~= rate);
                assert(MetricView {
                    kind: MetricKindView::Counter(tail.subrange(1, tail.len() as int)),
                    name: s.subrange(0, nl),
                    value: rest.subrange(0, vl),
                } =~= v);
            }
        },
    }
}

/// Decide whether `c` occurs in `s`.
pub fn contains_char(s: &str, c: char) -> (b: bool)
    ensures
        b == has_char(s@, c),
{
    match find_from(s, c, 0) {
        Some(_) => true,
        None => false,
    }
}

/// Decide whether `s` may serve as a metric name.
pub fn check_name(s: &str) -> (b: bool)
    ensures
        b == valid_name(s@),
{
    let n = s.unicode_len();
    if n == 0 {
        return false;
    }
    let mut i: usize = 0;
    while i < n
        invariant
            0 <= i <= n,
            n == s@.len(),
            forall|j: int| 0 <= j < i ==> (#[trigger] s@[j] != ':' && s@[j] != '|'),
        decreases n - i,
    {
        let c = s.get_char(i);
        if c == ':' || c == '|' {
            return false;
        }
        i += 1;
    }
    true
}

impl Metric {
    /// Build a metric, rejecting any argument the data model refuses:
    /// an empty name or one holding `:` or `|`, a value or a counter
    /// rate that is not decimal text.
    pub fn new(name: &str, value: &str, kind: MetricKind) -> (r: Option<Metric>)
        ensures
            r is Some <==> (valid_name(name@) && is_value(value@) && kind@.wf()),
            r matches Some(m) ==> m@ == (MetricView { kind: kind@, name: name@, value: value@ })
                && m.wf(),
    {
        if !check_name(name) || !check_value(value) {
            return None;
        }
        let kind_ok = match &kind {
            MetricKind::Counter(rate) => check_value(rate.as_str()),
            _ => true,
        };
        if !kind_ok {
            return None;
        }
        Some(Metric { kind, name: name.to_owned(), value: value.to_owned() })
    }

    /// Encode this metric as a wire line `name:value|type[|@rate]`.
    pub fn encode(&self) -> (r: String)
        requires
            self.wf(),
        ensures
            r@ == self@.encoded(),
    {
        proof {
            reveal_strlit(":");
            reveal_strlit("|");
            reveal_strlit("c");
            reveal_strlit("g");
            reveal_strlit("ms");
            reveal_strlit("h");
            reveal_strlit("kv");
            reveal_strlit("|@");
        }
        let mut out = String::new();
        out.append(self.name.as_str());
        out.append(":");
        out.append(self.value.as_str());
        out.append("|");
        match &self.kind {
            MetricKind::Counter(rate) => {
                out.append("c");
                let r = rate.as_str();
                let unsampled = r.unicode_len() == 1 && r.get_char(0) == '1';
                proof {
                    if unsampled {
                        assert(rate@ =~= seq!['1']);
                    }
                }
                if !unsampled {
                    out.append("|@");
                    out.append(r);
                }
            },
            MetricKind::Gauge => out.append("g"),
            MetricKind::Timer => out.append("ms"),
            MetricKind::Histogram => out.append("h"),
            MetricKind::KeyValue => out.append("kv"),
        }
        assert(out@ =~= self@.encoded());
        out
    }

    /// Decode a wire line back into a metric. The result is exactly what
    /// `spec_decode` names, and every decoded metric satisfies the data
    /// model's invariant.
    pub fn decode(line: &str) -> (r: Result<Metric, ParseError>)
        ensures
            r matches Ok(m) ==> spec_decode(line@) == Ok::<MetricView, ParseError>(m@) && m.wf(),
            r matches Err(e) ==> spec_decode(line@) == Err::<MetricView, ParseError>(e),
    {
        let n = line.unicode_len();
        let ci = match find_from(line, ':', 0) {
            None => {
                return Err(ParseError::MissingName);
            },
            Some(ci) => ci,
        };
        if ci == 0 {
            return Err(ParseError::MissingName);
        }
        let name_s = line.substring_char(0, ci);
        proof {
            lemma_first_ix(line@, ':');
        }
        if contains_char(name_s, '|') {
            return Err(ParseError::MissingName);
        }
        let rest = line.substring_char(ci + 1, n);
        let rn = rest.unicode_len();
        let pi = match find_from(rest, '|', 0) {
            None => {
                return Err(ParseError::MissingValue);
            },
            Some(pi) => pi,
        };
        if pi == 0 {
            return Err(ParseError::MissingValue);
        }
        let value_s = rest.substring_char(0, pi);
        if !check_value(value_s) {
            return Err(ParseError::InvalidValue);
        }
        let after = rest.substring_char(pi + 1, rn);
        let an = after.unicode_len();
        let (tok, ti) = match find_from(after, '|', 0) {
            None => (after, an),
            Some(ti) => (after.substring_char(0, ti), ti),
        };
        proof {
            assert(after@.subrange(0, after@.len() as int) =~= after@);
            lemma_first_ix(rest@, '|');
        }
        let tn = tok.unicode_len();
        let kind: MetricKind = if tn == 2 && tok.get_char(0) == 'm' && tok.get_char(1) == 's' {
            proof {
                assert(tok@ =~= seq!['m', 's']);
            }
            MetricKind::Timer
        } else if tn == 1 && tok.get_char(0) == 'g' {
            proof {
                assert(tok@ =~= seq!['g']);
            }
            MetricKind::Gauge
        } else if tn == 1 && tok.get_char(0) == 'h' {
            proof {
                assert(tok@ =~= seq!['h']);
            }
            MetricKind::Histogram
        } else if tn == 2 && tok.get_char(0) == 'k' && tok.get_char(1) == 'v' {
            proof {
                assert(tok@ =~= seq!['k', 'v']);
            }
            MetricKind::KeyValue
        } else if tn == 1 && tok.get_char(0) == 'c' {
            proof {
                assert(tok@ =~= seq!['c']);
            }
            let rate: String = if ti == an {
                proof {
                    reveal_strlit("1");
                    assert("1"@ =~= seq!['1']);
                }
                String::from_str("1")
            } else {
                let tail = after.substring_char(ti + 1, an);
                let tl = tail.unicode_len();
                let si = match find_from(tail, '|', 0) {
                    None => tl,
                    Some(si) => si,
                };
                proof {
                    assert(tail@.subrange(0, tail@.len() as int) =~= tail@);
                }
                let seg = tail.substring_char(0, si);
                if seg.unicode_len() > 0 && seg.get_char(0) == '@' {
                    let rem = seg.substring_char(1, seg.unicode_len());
                    if !check_value(rem) {
                        return Err(ParseError::InvalidValue);
                    }
                    rem.to_owned()
                } else {
                    proof {
                        reveal_strlit("1");
                        assert("1"@ =~= seq!['1']);
                    }
                    String::from_str("1")
                }
            };
            MetricKind::Counter(rate)
        } else {
            proof {
                assert(tok@ != seq!['m', 's']);
                assert(tok@ != seq!['g']);
                assert(tok@ != seq!['h']);
                assert(tok@ != seq!['k', 'v']);
                assert(tok@ != seq!['c']);
            }
            return Err(ParseError::UnknownType);
        };
        let m = Metric { kind, name: name_s.to_owned(), value: value_s.to_owned() };
        proof {
            lemma_first_ix(name_s@, '|');
            assert forall|j: int| 0 <= j < name_s@.len() implies (#[trigger] name_s@[j] != ':'
                && name_s@[j] != '|') by {
                assert(name_s@[j] == line@[j]);
            }
            assert(valid_name(m@.name));
            assert(m.wf());
            assert(spec_decode(line@) == Ok::<MetricView, ParseError>(m@));
        }
        Ok(m)
    }
}

} // verus!
