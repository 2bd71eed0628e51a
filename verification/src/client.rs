//! The batcher: a queue of encoded metric lines, drained on flush into
//! packets no larger than a configured limit.
//!
//! Sizes are counted in characters; on the wire format, which is ASCII,
//! a character is a byte.

use crate::metric::{valid_name, Metric, MetricKind, MetricKindView, MetricView};
use crate::sampling::{sample_accepted, sample_decision};
use crate::text::{dec_digits, dec_str, is_digit, is_value, lemma_dec_digits_value};
use vstd::prelude::*;
use vstd::string::StringExecFns;

verus! {

/// Why a client could not be set up. The batcher itself performs no I/O
/// and cannot fail; these arise only while a transport is constructed
/// around it.
#[derive(Debug)]
pub enum StatsdError {
    /// The host string did not resolve to a usable socket address.
    AddressResolution(String),
    /// Binding a local socket failed.
    SocketBind(String),
}

/// A line with the client prefix applied: `prefix.line`, or the line
/// unchanged when the prefix is empty.
pub open spec fn prefixed(prefix: Seq<char>, line: Seq<char>) -> Seq<char> {
    if prefix.len() == 0 {
        line
    } else {
        prefix + seq!['.'] + line
    }
}

/// Apply the client prefix to one encoded line.
pub fn prepare(prefix: &str, line: &str) -> (r: String)
    ensures
        r@ == prefixed(prefix@, line@),
{
    if prefix.is_empty() {
        line.to_owned()
    } else {
        let mut out = prefix.to_owned();
        out.append(".");
        out.append(line);
        proof {
            reveal_strlit(".");
            assert(out@ =~= prefixed(prefix@, line@));
        }
        out
    }
}

/// The packing fold: take lines in order; adopt a line unconditionally
/// into an empty buffer; otherwise start a new buffer when the line and
/// its newline would push the buffer past `max`; emit the last buffer if
/// it is non-empty.
pub open spec fn pack_rec(
    lines: Seq<Seq<char>>,
    max: int,
    cur: Seq<char>,
    acc: Seq<Seq<char>>,
) -> Seq<Seq<char>>
    decreases lines.len(),
{
    if lines.len() == 0 {
        if cur.len() == 0 {
            acc
        } else {
            acc.push(cur)
        }
    } else if cur.len() == 0 {
        pack_rec(lines.drop_first(), max, lines[0], acc)
    } else if cur.len() + 1 + lines[0].len() > max {
        pack_rec(lines.drop_first(), max, lines[0], acc.push(cur))
    } else {
        pack_rec(lines.drop_first(), max, cur + seq!['\n'] + lines[0], acc)
    }
}

/// The packets that flushing a queue of lines yields, given a size limit.
pub open spec fn pack(lines: Seq<Seq<char>>, max: int) -> Seq<Seq<char>> {
    pack_rec(lines, max, Seq::empty(), Seq::empty())
}

/// A batcher ("pipeline") of encoded metric lines: an ordered queue and a
/// packet size limit, drained by `flush`.
pub struct Pipeline {
    stats: Vec<String>,
    max_udp_size: usize,
}

/// The mathematical model of a batcher: its pending lines and its limit.
#[verifier::ext_equal]
pub struct PipelineView {
    pub lines: Seq<Seq<char>>,
    pub max: int,
}

impl View for Pipeline {
    type V = PipelineView;

    closed spec fn view(&self) -> PipelineView {
        PipelineView { lines: self.stats.deep_view(), max: self.max_udp_size as int }
    }
}

impl Pipeline {
    /// Every queued line is non-empty; all queued lines are produced by
    /// the codec, which never emits an empty line.
    pub open spec fn wf(self) -> bool {
        forall|i: int| 0 <= i < self@.lines.len() ==> (#[trigger] self@.lines[i]).len() > 0
    }

    /// A batcher with an empty queue and the default limit of 512 bytes,
    /// the typical safe UDP payload size.
    pub fn new() -> (r: Pipeline)
        ensures
            r@.lines == Seq::<Seq<char>>::empty(),
            r@.max == 512,
            r.wf(),
    {
        let r = Pipeline { stats: Vec::new(), max_udp_size: 512 };
        proof {
            assert(r@.lines =~= Seq::<Seq<char>>::empty());
        }
        r
    }

    /// Set the packet size limit.
    pub fn set_max_udp_size(&mut self, max_udp_size: usize)
        ensures
            final(self)@.max == max_udp_size as int,
            final(self)@.lines == old(self)@.lines,
            final(self).wf() == old(self).wf(),
    {
        self.max_udp_size = max_udp_size;
    }

    /// Encode a metric and append the line to the queue. No I/O happens
    /// here.
    pub fn add(&mut self, metric: &Metric)
        requires
            old(self).wf(),
            metric.wf(),
        ensures
            final(self)@.lines == old(self)@.lines.push(metric@.encoded()),
            final(self)@.max == old(self)@.max,
            final(self).wf(),
    {
        let line = metric.encode();
        proof {
            assert(line@.len() > 0);
        }
        self.stats.push(line);
        proof {
            assert(self@.lines =~= old(self)@.lines.push(metric@.encoded()));
        }
    }

    /// Build a metric from parts and queue its encoded line.
    fn push_metric(&mut self, name: &str, value: &str, kind: MetricKind)
        requires
            old(self).wf(),
            valid_name(name@),
            is_value(value@),
            kind@.wf(),
        ensures
            final(self)@.lines == old(self)@.lines.push(metric_line(kind@, name@, value@)),
            final(self)@.max == old(self)@.max,
            final(self).wf(),
    {
        let m = Metric { kind, name: name.to_owned(), value: value.to_owned() };
        self.add(&m);
    }

    /// Queue a counter change of `value`, unsampled.
    pub fn count(&mut self, metric: &str, value: &str)
        requires
            old(self).wf(),
            valid_name(metric@),
            is_value(value@),
        ensures
            final(self)@.lines == old(self)@.lines.push(
                metric_line(MetricKindView::Counter(seq!['1']), metric@, value@),
            ),
            final(self)@.max == old(self)@.max,
            final(self).wf(),
    {
        proof {
            lemma_lit_one();
        }
        self.push_metric(metric, value, MetricKind::Counter(String::from_str("1")));
        proof {
            assert("1"@ == seq!['1']);
        }
    }

    /// Queue an increment of the counter by 1.
    pub fn incr(&mut self, metric: &str)
        requires
            old(self).wf(),
            valid_name(metric@),
        ensures
            final(self)@.lines == old(self)@.lines.push(
                metric_line(MetricKindView::Counter(seq!['1']), metric@, seq!['1']),
            ),
            final(self)@.max == old(self)@.max,
            final(self).wf(),
    {
        proof {
            lemma_lit_one();
        }
        self.count(metric, "1");
    }

    /// Queue a decrement of the counter by 1.
    pub fn decr(&mut self, metric: &str)
        requires
            old(self).wf(),
            valid_name(metric@),
        ensures
            final(self)@.lines == old(self)@.lines.push(
                metric_line(MetricKindView::Counter(seq!['1']), metric@, seq!['-', '1']),
            ),
            final(self)@.max == old(self)@.max,
            final(self).wf(),
    {
        proof {
            lemma_lit_minus_one();
        }
        self.count(metric, "-1");
    }

    /// Queue a gauge reading.
    pub fn gauge(&mut self, metric: &str, value: &str)
        requires
            old(self).wf(),
            valid_name(metric@),
            is_value(value@),
        ensures
            final(self)@.lines == old(self)@.lines.push(
                metric_line(MetricKindView::Gauge, metric@, value@),
            ),
            final(self)@.max == old(self)@.max,
            final(self).wf(),
    {
        self.push_metric(metric, value, MetricKind::Gauge);
    }

    /// Queue a timing, in milliseconds.
    pub fn timer(&mut self, metric: &str, value: &str)
        requires
            old(self).wf(),
            valid_name(metric@),
            is_value(value@),
        ensures
            final(self)@.lines == old(self)@.lines.push(
                metric_line(MetricKindView::Timer, metric@, value@),
            ),
            final(self)@.max == old(self)@.max,
            final(self).wf(),
    {
        self.push_metric(metric, value, MetricKind::Timer);
    }

    /// Queue a histogram sample.
    pub fn histogram(&mut self, metric: &str, value: &str)
        requires
            old(self).wf(),
            valid_name(metric@),
            is_value(value@),
        ensures
            final(self)@.lines == old(self)@.lines.push(
                metric_line(MetricKindView::Histogram, metric@, value@),
            ),
            final(self)@.max == old(self)@.max,
            final(self).wf(),
    {
        self.push_metric(metric, value, MetricKind::Histogram);
    }

    /// Queue a key/value reading.
    pub fn kv(&mut self, metric: &str, value: &str)
        requires
            old(self).wf(),
            valid_name(metric@),
            is_value(value@),
        ensures
            final(self)@.lines == old(self)@.lines.push(
                metric_line(MetricKindView::KeyValue, metric@, value@),
            ),
            final(self)@.max == old(self)@.max,
            final(self).wf(),
    {
        self.push_metric(metric, value, MetricKind::KeyValue);
    }

    /// Queue a counter change of `value` at the given sample rate: draw
    /// once, and queue `name:value|c|@rate` only when the draw falls
    /// below the rate. A rate no draw accepts (`0` or less) never
    /// queues; a rate every draw accepts (`1` or more) always queues.
    pub fn sampled_count(&mut self, metric: &str, value: &str, rate: &str)
        requires
            old(self).wf(),
            valid_name(metric@),
            is_value(value@),
            is_value(rate@),
        ensures
            final(self)@.max == old(self)@.max,
            final(self).wf(),
            final(self)@.lines == old(self)@.lines || final(self)@.lines == old(
                self,
            )@.lines.push(metric_line(MetricKindView::Counter(rate@), metric@, value@)),
            (forall|d: u32| !sample_accepted(d, rate@)) ==> final(self)@.lines == old(
                self,
            )@.lines,
            (forall|d: u32| sample_accepted(d, rate@)) ==> final(self)@.lines == old(
                self,
            )@.lines.push(metric_line(MetricKindView::Counter(rate@), metric@, value@)),
    {
        if !sample_decision(rate) {
            return ;
        }
        self.push_metric(metric, value, MetricKind::Counter(rate.to_owned()));
    }

    /// Run `callable` once, measure the wall-clock time it took, and
    /// queue that duration in whole milliseconds (rounded toward zero) as
    /// a timer reading.
    pub fn time<F: FnOnce() -> ()>(&mut self, metric: &str, callable: F)
        requires
            old(self).wf(),
            valid_name(metric@),
            call_requires(callable, ()),
        ensures
            final(self)@.max == old(self)@.max,
            final(self).wf(),
            exists|ms: u128|
                final(self)@.lines == old(self)@.lines.push(
                    #[trigger] metric_line(MetricKindView::Timer, metric@, dec_digits(ms as int)),
                ),
            call_ensures(callable, (), ()),
    {
        let start = instant_now();
        callable();
        let used = instant_elapsed(&start);
        let ms = duration_millis(&used);
        proof {
            lemma_dec_digits_value(ms as int);
        }
        let value = dec_str(ms);
        self.push_metric(metric, value.as_str(), MetricKind::Timer);
    }

    /// Drain the queue into packets: each pending line gets the prefix,
    /// and consecutive lines are joined by a newline as long as a packet
    /// stays within the limit. A single line longer than the limit still
    /// becomes a packet of its own. The queue is empty afterwards and the
    /// batcher may be reused.
    pub fn flush(&mut self, prefix: &str) -> (out: Vec<String>)
        requires
            old(self).wf(),
        ensures
            out.deep_view() == pack(
                old(self)@.lines.map_values(|l: Seq<char>| prefixed(prefix@, l)),
                old(self)@.max,
            ),
            final(self)@.lines == Seq::<Seq<char>>::empty(),
            final(self)@.max == old(self)@.max,
            final(self).wf(),
    {
        let ghost plines = old(self)@.lines.map_values(|l: Seq<char>| prefixed(prefix@, l));
        let n = self.stats.len();
        let mut out: Vec<String> = Vec::new();
        let mut cur: String = String::new();
        let mut i: usize = 0;
        proof {
            assert(out.deep_view() =~= Seq::<Seq<char>>::empty());
            assert(plines.subrange(0, n as int) =~= plines);
        }
        while i < n
            invariant
                0 <= i <= n,
                self.stats@ == old(self).stats@,
                self.max_udp_size == old(self).max_udp_size,
                n == self.stats.len(),
                plines == old(self)@.lines.map_values(|l: Seq<char>| prefixed(prefix@, l)),
                plines.len() == n,
                pack_rec(
                    plines.subrange(i as int, n as int),
                    self.max_udp_size as int,
                    cur@,
                    out.deep_view(),
                ) == pack(plines, self.max_udp_size as int),
            decreases n - i,
        {
            let line = prepare(prefix, self.stats[i].as_str());
            let ghost sub_i = plines.subrange(i as int, n as int);
            proof {
                assert(self.stats.deep_view()[i as int] == self.stats@[i as int]@);
                assert(plines[i as int] == prefixed(prefix@, old(self)@.lines[i as int]));
                assert(sub_i[0] == plines[i as int]);
                assert(sub_i.drop_first() =~= plines.subrange(i + 1, n as int));
            }
            if cur.as_str().is_empty() {
                cur = line;
            } else {
                let cl = cur.as_str().unicode_len();
                let ll = line.as_str().unicode_len();
                if cl >= self.max_udp_size || ll > self.max_udp_size - cl - 1 {
                    let ghost prev = out.deep_view();
                    out.push(cur);
                    proof {
                        assert(out.deep_view() =~= prev.push(cur@));
                    }
                    cur = line;
                } else {
                    let ghost prev = cur@;
                    cur.append("\n");
                    cur.append(line.as_str());
                    proof {
                        reveal_strlit("\n");
                        assert(cur@ =~= prev + seq!['\n'] + line@);
                    }
                }
            }
            i += 1;
        }
        proof {
            assert(plines.subrange(n as int, n as int) =~= Seq::<Seq<char>>::empty());
        }
        if !cur.as_str().is_empty() {
            let ghost prev = out.deep_view();
            out.push(cur);
            proof {
                assert(out.deep_view() =~= prev.push(cur@));
            }
        }
        self.stats.clear();
        proof {
            assert(self@.lines =~= Seq::<Seq<char>>::empty());
        }
        out
    }
}

/// The content of one packet, or of a queue, as one text: the pieces
/// joined by newlines, with no trailing newline.
pub open spec fn joined(bufs: Seq<Seq<char>>) -> Seq<char>
    decreases bufs.len(),
{
    if bufs.len() == 0 {
        Seq::empty()
    } else if bufs.len() == 1 {
        bufs[0]
    } else {
        joined(bufs.drop_last()) + seq!['\n'] + bufs.last()
    }
}

/// The same join written with a leading separator before every piece,
/// used to run the packing induction from the front.
spec fn nl_join(lines: Seq<Seq<char>>) -> Seq<char>
    decreases lines.len(),
{
    if lines.len() == 0 {
        Seq::empty()
    } else {
        seq!['\n'] + lines[0] + nl_join(lines.drop_first())
    }
}

proof fn lemma_joined_snoc(bufs: Seq<Seq<char>>, x: Seq<char>)
    ensures
        joined(bufs.push(x)) == if bufs.len() == 0 {
            x
        } else {
            joined(bufs) + seq!['\n'] + x
        },
{
    let p = bufs.push(x);
    if bufs.len() == 0 {
        assert(p[0] == x);
    } else {
        assert(p.drop_last() =~= bufs);
        assert(p.last() == x);
    }
}

proof fn lemma_nl_join_snoc(lines: Seq<Seq<char>>, x: Seq<char>)
    ensures
        nl_join(lines.push(x)) == nl_join(lines) + seq!['\n'] + x,
    decreases lines.len(),
{
    let p = lines.push(x);
    if lines.len() == 0 {
        assert(p[0] == x);
        assert(p.drop_first() =~= Seq::<Seq<char>>::empty());
        assert(nl_join(p.drop_first()) == Seq::<char>::empty());
        assert(nl_join(p) == seq!['\n'] + x + Seq::<char>::empty());
        assert(nl_join(lines) == Seq::<char>::empty());
        assert(seq!['\n'] + x + Seq::<char>::empty() =~= Seq::<char>::empty() + seq!['\n'] + x);
    } else {
        assert(p.drop_first() =~= lines.drop_first().push(x));
        lemma_nl_join_snoc(lines.drop_first(), x);
        assert(p[0] == lines[0]);
        assert(seq!['\n'] + lines[0] + (nl_join(lines.drop_first()) + seq!['\n'] + x) =~= (seq![
            '\n',
        ] + lines[0] + nl_join(lines.drop_first())) + seq!['\n'] + x);
    }
}

proof fn lemma_joined_front(lines: Seq<Seq<char>>)
    requires
        lines.len() > 0,
    ensures
        joined(lines) == lines[0] + nl_join(lines.drop_first()),
    decreases lines.len(),
{
    if lines.len() == 1 {
        assert(lines[0] + nl_join(lines.drop_first()) =~= lines[0]);
    } else {
        let dl = lines.drop_last();
        lemma_joined_front(dl);
        assert(dl[0] == lines[0]);
        assert(lines.drop_first() =~= dl.drop_first().push(lines.last()));
        lemma_nl_join_snoc(dl.drop_first(), lines.last());
        assert((lines[0] + nl_join(dl.drop_first())) + seq!['\n'] + lines.last() =~= lines[0] + (
        nl_join(dl.drop_first()) + seq!['\n'] + lines.last()));
    }
}

proof fn lemma_pack_rec_joined(lines: Seq<Seq<char>>, max: int, cur: Seq<char>, acc: Seq<Seq<char>>)
    requires
        cur.len() > 0,
        forall|i: int| 0 <= i < lines.len() ==> (#[trigger] lines[i]).len() > 0,
    ensures
        joined(pack_rec(lines, max, cur, acc)) == joined(acc.push(cur + nl_join(lines))),
    decreases lines.len(),
{
    if lines.len() == 0 {
        assert(cur + nl_join(lines) =~= cur);
    } else {
        let l0 = lines[0];
        let rest = lines.drop_first();
        assert(forall|i: int| 0 <= i < rest.len() ==> (#[trigger] rest[i]).len() > 0);
        assert(cur + nl_join(lines) =~= cur + seq!['\n'] + l0 + nl_join(rest));
        if cur.len() + 1 + l0.len() > max {
            lemma_pack_rec_joined(rest, max, l0, acc.push(cur));
            lemma_joined_snoc(acc.push(cur), l0 + nl_join(rest));
            lemma_joined_snoc(acc, cur);
            lemma_joined_snoc(acc, cur + seq!['\n'] + l0 + nl_join(rest));
            if acc.len() == 0 {
                assert(cur + seq!['\n'] + (l0 + nl_join(rest)) =~= cur + seq!['\n'] + l0 + nl_join(
                    rest,
                ));
            } else {
                assert((joined(acc) + seq!['\n'] + cur) + seq!['\n'] + (l0 + nl_join(rest)) =~= joined(
                    acc,
                ) + seq!['\n'] + (cur + seq!['\n'] + l0 + nl_join(rest)));
            }
        } else {
            lemma_pack_rec_joined(rest, max, cur + seq!['\n'] + l0, acc);
            assert((cur + seq!['\n'] + l0) + nl_join(rest) =~= cur + seq!['\n'] + l0 + nl_join(
                rest,
            ));
        }
    }
}

/// No line is split and none is dropped: the packets that a flush yields,
/// joined back together with newlines, read exactly as the queued lines
/// joined with newlines, in their original order.
pub proof fn lemma_pack_keeps_lines(lines: Seq<Seq<char>>, max: int)
    requires
        forall|i: int| 0 <= i < lines.len() ==> (#[trigger] lines[i]).len() > 0,
    ensures
        joined(pack(lines, max)) == joined(lines),
{
    if lines.len() == 0 {
    } else {
        let rest = lines.drop_first();
        assert(forall|i: int| 0 <= i < rest.len() ==> (#[trigger] rest[i]).len() > 0);
        lemma_pack_rec_joined(rest, max, lines[0], Seq::empty());
        lemma_joined_snoc(Seq::empty(), lines[0] + nl_join(rest));
        lemma_joined_front(lines);
    }
}

/// Flushing an empty batcher yields no packets.
pub proof fn lemma_pack_empty(max: int)
    ensures
        pack(Seq::<Seq<char>>::empty(), max) == Seq::<Seq<char>>::empty(),
{
}

/// Every buffer is within the limit or is one of the lines of `orig`.
pub open spec fn bufs_within(bufs: Seq<Seq<char>>, max: int, orig: Seq<Seq<char>>) -> bool {
    forall|i: int|
        0 <= i < bufs.len() ==> (#[trigger] bufs[i]).len() <= max || orig.contains(bufs[i])
}

proof fn lemma_pack_rec_oversized(
    lines: Seq<Seq<char>>,
    max: int,
    cur: Seq<char>,
    acc: Seq<Seq<char>>,
    orig: Seq<Seq<char>>,
)
    requires
        cur.len() == 0 || cur.len() <= max || orig.contains(cur),
        bufs_within(acc, max, orig),
        forall|i: int| 0 <= i < lines.len() ==> orig.contains(#[trigger] lines[i]),
    ensures
        bufs_within(pack_rec(lines, max, cur, acc), max, orig),
    decreases lines.len(),
{
    if lines.len() == 0 {
        if cur.len() != 0 {
            assert forall|i: int| 0 <= i < acc.push(cur).len() implies (#[trigger] acc.push(
                cur,
            )[i]).len() <= max || orig.contains(acc.push(cur)[i]) by {
                if i < acc.len() {
                    assert(acc.push(cur)[i] == acc[i]);
                } else {
                    assert(acc.push(cur)[i] == cur);
                }
            }
        }
    } else {
        let l0 = lines[0];
        let rest = lines.drop_first();
        assert(forall|i: int| 0 <= i < rest.len() ==> orig.contains(#[trigger] rest[i]));
        assert(orig.contains(l0));
        if cur.len() == 0 {
            lemma_pack_rec_oversized(rest, max, l0, acc, orig);
        } else if cur.len() + 1 + l0.len() > max {
            assert forall|i: int| 0 <= i < acc.push(cur).len() implies (#[trigger] acc.push(
                cur,
            )[i]).len() <= max || orig.contains(acc.push(cur)[i]) by {
                if i < acc.len() {
                    assert(acc.push(cur)[i] == acc[i]);
                } else {
                    assert(acc.push(cur)[i] == cur);
                }
            }
            lemma_pack_rec_oversized(rest, max, l0, acc.push(cur), orig);
        } else {
            lemma_pack_rec_oversized(rest, max, cur + seq!['\n'] + l0, acc, orig);
        }
    }
}

/// A packet larger than the limit is always a single queued line, emitted
/// alone: an oversized line is neither split nor dropped, and nothing is
/// packed beside it.
pub proof fn lemma_pack_oversized(lines: Seq<Seq<char>>, max: int)
    ensures
        bufs_within(pack(lines, max), max, lines),
{
    assert(forall|i: int| 0 <= i < lines.len() ==> lines.contains(#[trigger] lines[i]));
    lemma_pack_rec_oversized(lines, max, Seq::empty(), Seq::empty(), lines);
}

impl Default for Pipeline {
    /// The default batcher: an empty queue and the default limit.
    fn default() -> (r: Pipeline)
        ensures
            r@.lines == Seq::<Seq<char>>::empty(),
            r@.max == 512,
            r.wf(),
    {
        Pipeline::new()
    }
}

#[verifier::external_type_specification]
#[verifier::external_body]
pub struct ExInstant(std::time::Instant);

/// Relies on `std::time::Instant::now`: an opaque reading of the
/// monotonic clock; nothing is assumed of it.
#[verifier::external_body]
fn instant_now() -> std::time::Instant {
    std::time::Instant::now()
}

/// Relies on `std::time::Instant::elapsed`: the time since `start`,
/// opaque here; nothing is assumed of it.
#[verifier::external_body]
fn instant_elapsed(start: &std::time::Instant) -> std::time::Duration {
    start.elapsed()
}

/// Relies on `std::time::Duration::as_millis`: the duration in whole
/// milliseconds, rounded toward zero; which value comes back depends on
/// the clock, so nothing is assumed of it.
#[verifier::external_body]
fn duration_millis(d: &std::time::Duration) -> u128 {
    d.as_millis()
}

/// The encoded line of a metric given by its parts.
pub open spec fn metric_line(kind: MetricKindView, name: Seq<char>, value: Seq<char>) -> Seq<
    char,
> {
    (MetricView { kind, name, value }).encoded()
}

/// The single digit `1`, the default sample rate, is a valid value.
proof fn lemma_lit_one()
    ensures
        "1"@ == seq!['1'],
        is_value("1"@),
{
    reveal_strlit("1");
    assert("1"@ =~= seq!['1']);
    assert(is_digit("1"@[0]));
    assert(is_value("1"@));
}

/// The text `-1`, the value queued by `decr`, is a valid value.
proof fn lemma_lit_minus_one()
    ensures
        "-1"@ == seq!['-', '1'],
        is_value("-1"@),
{
    reveal_strlit("-1");
    assert("-1"@ =~= seq!['-', '1']);
    let t = "-1"@.subrange(1, 2);
    assert(t =~= seq!['1']);
    assert(is_digit(t[0]));
    assert(is_value("-1"@));
}

} // verus!
