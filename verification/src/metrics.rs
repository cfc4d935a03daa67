//! Execution metrics: the keys under which per-minute counters are stored,
//! their parsing, and the aggregation of counter hashes into totals, a
//! per-minute series and per-worker summaries.

use vstd::prelude::*;
use vstd::string::StringSliceAdditionalSpecFns;
use vstd::utf8::*;

use crate::results::{WorkerResult, WorkerResultKind};
use crate::text::{bytes_less, bytes_lt, lemma_bytes_lt_transitive, 
    all_ascii, ascii_bytes, chars_of, decimal, decimal_chars, extend_chars, lemma_decimal_ascii_digits,
    lemma_decimal_value, lemma_utf8_ascii, lemma_utf8_concat, parse_usize, parse_usize_bytes,
    string_of, utf8, views_of,
};

verus! {

broadcast use vstd::string::group_string_axioms, vstd::utf8::encode_utf8_valid_utf8;

/// Byte value of `:`.
pub const COLON: u8 = 58;

/// Byte value of `|`.
pub const PIPE: u8 = 124;

/// The worker whose executions a group of counters describes.
#[derive(Debug)]
pub struct MetricIdentity {
    pub worker: String,
}

impl Clone for MetricIdentity {
    fn clone(&self) -> (r: Self)
        ensures
            r.worker@ == self.worker@,
    {
        MetricIdentity { worker: self.worker.clone() }
    }
}

impl PartialEq for MetricIdentity {
    fn eq(&self, other: &Self) -> (r: bool) {
        self.worker == other.worker
    }
}

impl vstd::std_specs::cmp::PartialEqSpecImpl for MetricIdentity {
    open spec fn obeys_eq_spec() -> bool {
        true
    }

    open spec fn eq_spec(&self, other: &Self) -> bool {
        self.worker@ == other.worker@
    }
}

impl Eq for MetricIdentity {}

/// The key of an identity inside a counter field: the byte length of the
/// worker name, a colon, then the name itself.
pub open spec fn field_key_chars(worker: Seq<char>) -> Seq<char> {
    decimal(utf8(worker).len()) + seq![':'] + worker
}

/// True when `i` is the position of the first colon byte.
pub open spec fn is_first_colon(b: Seq<u8>, i: int) -> bool {
    &&& 0 <= i < b.len()
    &&& b[i] == COLON
    &&& forall|j: int| 0 <= j < i ==> b[j] != COLON
}

/// Position of the first colon byte, if any.
pub open spec fn first_colon(b: Seq<u8>) -> Option<int> {
    if exists|i: int| is_first_colon(b, i) {
        Some(choose|i: int| is_first_colon(b, i))
    } else {
        None
    }
}

/// The worker bytes that a field key names: the digits before the first
/// colon give a byte length, and that many bytes after the colon are the
/// worker, provided they end on a character boundary. Anything after them
/// is ignored.
pub open spec fn parse_field_key(key: Seq<u8>) -> Option<Seq<u8>> {
    match first_colon(key) {
        None => None,
        Some(i) => match parse_usize(key.take(i)) {
            None => None,
            Some(n) => {
                let rest = key.skip(i + 1);
                if rest.len() >= n && is_char_boundary(rest, n as int) {
                    Some(rest.take(n as int))
                } else {
                    None
                }
            },
        },
    }
}

proof fn lemma_first_colon_unique(b: Seq<u8>, i: int)
    requires
        is_first_colon(b, i),
    ensures
        first_colon(b) == Some(i),
{
    let k = choose|k: int| is_first_colon(b, k);
    assert(is_first_colon(b, k));
    if k < i {
        assert(b[k] != COLON);
    } else if i < k {
        assert(b[i] != COLON);
    }
}

proof fn lemma_ascii_char_boundary_after(b: Seq<u8>)
    requires
        valid_utf8(b),
        b.len() >= 1,
        b[0] < 0x80,
    ensures
        is_char_boundary(b, 1),
{
    reveal_with_fuel(is_char_boundary, 2);
    assert(length_of_first_scalar(b) == 1);
    assert(valid_utf8(pop_first_scalar(b))) by {
        reveal_with_fuel(valid_utf8, 2);
    }
}

impl MetricIdentity {
    /// The identity under which a worker result is counted: its worker.
    pub fn from_worker_result(result: &WorkerResult) -> (r: MetricIdentity)
        ensures
            r.worker@ == result.worker_name@,
    {
        MetricIdentity { worker: result.worker_name.clone() }
    }

    /// The key of this identity inside counter fields.
    pub fn field_key(&self) -> (k: String)
        requires
            utf8(self.worker@).len() <= usize::MAX,
        ensures
            k@ == field_key_chars(self.worker@),
    {
        let n = self.worker.as_str().len();
        let mut v = decimal_chars(n as u64);
        v.push(':');
        extend_chars(&mut v, self.worker.as_str());
        string_of(&v)
    }

    /// Reads an identity back from a field key; `None` when the key is not
    /// one (see `parse_field_key`).
    pub fn from_field_key(key: &str) -> (r: Option<MetricIdentity>)
        ensures
            match r {
                Some(id) => parse_field_key(utf8(key@)) == Some(utf8(id.worker@)),
                None => parse_field_key(utf8(key@)) is None,
            },
    {
        let bytes = key.as_bytes();
        let ghost kb = utf8(key@);
        assert(bytes@ == kb);
        let len = bytes.len();
        let mut i: usize = 0;
        while i < len
            invariant
                i <= len,
                len == kb.len(),
                bytes@ == kb,
                forall|j: int| 0 <= j < i ==> kb[j] != COLON,
            ensures
                i <= len,
                forall|j: int| 0 <= j < i ==> kb[j] != COLON,
                i < len ==> kb[i as int] == COLON,
            decreases len - i,
        {
            if bytes[i] == COLON {
                break;
            }
            i = i + 1;
        }
        if i == len {
            assert(!exists|c: int| is_first_colon(kb, c)) by {
                if exists|c: int| is_first_colon(kb, c) {
                    let c = choose|c: int| is_first_colon(kb, c);
                    assert(kb[c] != COLON);
                }
            }
            return None;
        }
        assert(is_first_colon(kb, i as int));
        proof {
            lemma_first_colon_unique(kb, i as int);
            is_char_boundary_iff_not_is_continuation_byte(kb, i as int);
        }
        let (digits, tail) = key.split_at(i);
        assert(utf8(digits@) =~= kb.take(i as int));
        let parsed = parse_usize_bytes(digits.as_bytes());
        let n = match parsed {
            None => {
                return None;
            },
            Some(n) => n,
        };
        let ghost tb = utf8(tail@);
        assert(tb =~= kb.subrange(i as int, kb.len() as int));
        proof {
            lemma_ascii_char_boundary_after(tb);
        }
        let (_colon, rest) = tail.split_at(1);
        let ghost rb = utf8(rest@);
        assert(rb =~= kb.skip(i + 1));
        if rest.len() < n || !rest.is_char_boundary(n) {
            return None;
        }
        let (worker, _after) = rest.split_at(n);
        assert(utf8(worker@) =~= rb.take(n as int));
        let owned = worker.to_owned();
        Some(MetricIdentity { worker: owned })
    }
}

/// Round trip of identity keys: reading back the key written for a worker
/// name gives that name.
pub proof fn lemma_field_key_round_trip(worker: Seq<char>)
    requires
        utf8(worker).len() <= usize::MAX,
    ensures
        parse_field_key(utf8(field_key_chars(worker))) == Some(utf8(worker)),
{
    let n = utf8(worker).len();
    let d = decimal(n);
    let colon = seq![':'];
    lemma_decimal_ascii_digits(n);
    lemma_decimal_value(n);
    lemma_utf8_concat(d + colon, worker);
    lemma_utf8_concat(d, colon);
    lemma_utf8_ascii(d);
    assert(all_ascii(colon));
    lemma_utf8_ascii(colon);
    let ab = ascii_bytes(d);
    let wb = utf8(worker);
    let kb = utf8(field_key_chars(worker));
    assert(ascii_bytes(colon) =~= seq![COLON]);
    assert(kb =~= ab + seq![COLON] + wb);
    let i = d.len() as int;
    assert(forall|j: int| 0 <= j < i ==> kb[j] == ab[j]);
    assert(forall|j: int| 0 <= j < i ==> 48 <= #[trigger] ab[j] <= 57);
    assert(is_first_colon(kb, i));
    lemma_first_colon_unique(kb, i);
    assert(kb.take(i) =~= ab);
    assert(ab[0] != 43);
    assert(parse_usize(ab) == Some(n));
    assert(kb.skip(i + 1) =~= wb);
    is_char_boundary_start_end_of_seq(wb);
    assert(wb.take(n as int) =~= wb);
}

proof fn lemma_utf8_boundary_between(a: Seq<char>, b: Seq<char>)
    ensures
        is_char_boundary(utf8(a + b), utf8(a).len() as int),
    decreases a.len(),
{
    vstd::utf8::encode_utf8_valid_utf8(a + b);
    if a.len() > 0 {
        let ab = utf8(a + b);
        vstd::utf8::encode_utf8_first_scalar(a + b);
        assert((a + b)[0] == a[0]);
        assert((a + b).drop_first() =~= a.drop_first() + b);
        assert(vstd::utf8::pop_first_scalar(ab) =~= utf8(a.drop_first() + b));
        assert(utf8(a).len() == vstd::utf8::encode_scalar(a[0] as u32).len() + utf8(a.drop_first()).len());
        lemma_utf8_boundary_between(a.drop_first(), b);
        vstd::utf8::encode_utf8_valid_utf8(a.drop_first() + b);
    }
}

/// Round trip of identity keys followed by more text: reading back a key
/// written for a worker name gives that name, whatever comes after the
/// key (as in a counter field, where `|` and the counter's code follow).
pub proof fn lemma_field_key_prefix_round_trip(worker: Seq<char>, rest: Seq<char>)
    requires
        utf8(worker).len() <= usize::MAX,
    ensures
        parse_field_key(utf8(field_key_chars(worker) + rest)) == Some(utf8(worker)),
{
    let n = utf8(worker).len();
    let d = decimal(n);
    let colon = seq![':'];
    lemma_decimal_ascii_digits(n);
    lemma_decimal_value(n);
    assert(field_key_chars(worker) + rest =~= (d + colon) + (worker + rest));
    lemma_utf8_concat(d + colon, worker + rest);
    lemma_utf8_concat(d, colon);
    lemma_utf8_concat(worker, rest);
    lemma_utf8_ascii(d);
    assert(all_ascii(colon));
    lemma_utf8_ascii(colon);
    let ab = ascii_bytes(d);
    let wb = utf8(worker);
    let rb = utf8(worker + rest);
    let kb = utf8(field_key_chars(worker) + rest);
    assert(ascii_bytes(colon) =~= seq![COLON]);
    assert(kb =~= ab + seq![COLON] + rb);
    let i = d.len() as int;
    assert(forall|j: int| 0 <= j < i ==> kb[j] == ab[j]);
    assert(forall|j: int| 0 <= j < i ==> 48 <= #[trigger] ab[j] <= 57);
    assert(is_first_colon(kb, i));
    lemma_first_colon_unique(kb, i);
    assert(kb.take(i) =~= ab);
    assert(ab[0] != 43);
    assert(parse_usize(ab) == Some(n));
    assert(kb.skip(i + 1) =~= rb);
    lemma_utf8_boundary_between(worker, rest);
    assert(rb.take(n as int) =~= wb);
}

/// A counter kind stored per worker and minute.
#[derive(Clone, Copy, Debug, PartialEq, Eq, Structural)]
pub enum Metric {
    /// Jobs completed (field suffix `p`).
    ProcessedJobs,
    /// Jobs that failed or panicked (`f`).
    FailedJobs,
    /// Jobs that panicked (`pn`).
    PanickedJobs,
    /// Successful executions (`xs`).
    SuccessfulExecutions,
    /// Failed or panicked executions (`xf`).
    FailedExecutions,
    /// Panicked executions (`xpn`).
    PanickedExecutions,
    /// Total milliseconds of successful executions (`ms`).
    ExecutionMs,
}

/// The field suffix of each counter kind.
pub open spec fn metric_code(m: Metric) -> Seq<char> {
    match m {
        Metric::ProcessedJobs => seq!['p'],
        Metric::FailedJobs => seq!['f'],
        Metric::PanickedJobs => seq!['p', 'n'],
        Metric::SuccessfulExecutions => seq!['x', 's'],
        Metric::FailedExecutions => seq!['x', 'f'],
        Metric::PanickedExecutions => seq!['x', 'p', 'n'],
        Metric::ExecutionMs => seq!['m', 's'],
    }
}

/// The counter kind whose suffix has the given bytes.
pub open spec fn metric_of_bytes(b: Seq<u8>) -> Option<Metric> {
    if b == ascii_bytes(metric_code(Metric::ProcessedJobs)) {
        Some(Metric::ProcessedJobs)
    } else if b == ascii_bytes(metric_code(Metric::FailedJobs)) {
        Some(Metric::FailedJobs)
    } else if b == ascii_bytes(metric_code(Metric::PanickedJobs)) {
        Some(Metric::PanickedJobs)
    } else if b == ascii_bytes(metric_code(Metric::SuccessfulExecutions)) {
        Some(Metric::SuccessfulExecutions)
    } else if b == ascii_bytes(metric_code(Metric::FailedExecutions)) {
        Some(Metric::FailedExecutions)
    } else if b == ascii_bytes(metric_code(Metric::PanickedExecutions)) {
        Some(Metric::PanickedExecutions)
    } else if b == ascii_bytes(metric_code(Metric::ExecutionMs)) {
        Some(Metric::ExecutionMs)
    } else {
        None
    }
}

proof fn lemma_metric_code_ascii(m: Metric)
    ensures
        all_ascii(metric_code(m)),
        utf8(metric_code(m)) == ascii_bytes(metric_code(m)),
        metric_of_bytes(ascii_bytes(metric_code(m))) == Some(m),
        forall|j: int| 0 <= j < metric_code(m).len() ==> metric_code(m)[j] != '|',
{
    lemma_utf8_ascii(metric_code(m));
    let p = ascii_bytes(metric_code(Metric::ProcessedJobs));
    let f = ascii_bytes(metric_code(Metric::FailedJobs));
    let pn = ascii_bytes(metric_code(Metric::PanickedJobs));
    let xs = ascii_bytes(metric_code(Metric::SuccessfulExecutions));
    let xf = ascii_bytes(metric_code(Metric::FailedExecutions));
    let xpn = ascii_bytes(metric_code(Metric::PanickedExecutions));
    let ms = ascii_bytes(metric_code(Metric::ExecutionMs));
    assert(p[0] == 112 && f[0] == 102 && pn[0] == 112 && pn[1] == 110);
    assert(xs[0] == 120 && xs[1] == 115 && xf[1] == 102 && xpn[1] == 112 && ms[0] == 109);
    assert(p.len() == 1 && f.len() == 1 && pn.len() == 2 && xs.len() == 2 && xf.len() == 2);
    assert(xpn.len() == 3 && ms.len() == 2);
}

fn bytes_eq(a: &[u8], b: &[u8]) -> (r: bool)
    ensures
        r == (a@ == b@),
{
    if a.len() != b.len() {
        return false;
    }
    let mut i: usize = 0;
    while i < a.len()
        invariant
            a@.len() == b@.len(),
            i <= a@.len(),
            forall|j: int| 0 <= j < i ==> a@[j] == b@[j],
        decreases a.len() - i,
    {
        if a[i] != b[i] {
            return false;
        }
        i = i + 1;
    }
    assert(a@ =~= b@);
    true
}

impl Metric {
    /// The field suffix of this counter kind.
    pub fn code(self) -> (c: &'static str)
        ensures
            c@ == metric_code(self),
    {
        match self {
            Metric::ProcessedJobs => {
                proof { reveal_strlit("p"); }
                "p"
            },
            Metric::FailedJobs => {
                proof { reveal_strlit("f"); }
                "f"
            },
            Metric::PanickedJobs => {
                proof { reveal_strlit("pn"); }
                "pn"
            },
            Metric::SuccessfulExecutions => {
                proof { reveal_strlit("xs"); }
                "xs"
            },
            Metric::FailedExecutions => {
                proof { reveal_strlit("xf"); }
                "xf"
            },
            Metric::PanickedExecutions => {
                proof { reveal_strlit("xpn"); }
                "xpn"
            },
            Metric::ExecutionMs => {
                proof { reveal_strlit("ms"); }
                "ms"
            },
        }
    }

    /// The counter kind named by a field suffix.
    pub fn from_bytes(b: &[u8]) -> (r: Option<Metric>)
        ensures
            r == metric_of_bytes(b@),
    {
        let all = [
            Metric::ProcessedJobs,
            Metric::FailedJobs,
            Metric::PanickedJobs,
            Metric::SuccessfulExecutions,
            Metric::FailedExecutions,
            Metric::PanickedExecutions,
            Metric::ExecutionMs,
        ];
        let mut k: usize = 0;
        while k < 7
            invariant
                k <= 7,
                all@ == seq![
                    Metric::ProcessedJobs,
                    Metric::FailedJobs,
                    Metric::PanickedJobs,
                    Metric::SuccessfulExecutions,
                    Metric::FailedExecutions,
                    Metric::PanickedExecutions,
                    Metric::ExecutionMs,
                ],
                forall|j: int| 0 <= j < k ==> b@ != #[trigger] ascii_bytes(metric_code(all@[j])),
            decreases 7 - k,
        {
            let m = all[k];
            let code = m.code();
            proof {
                lemma_metric_code_ascii(m);
            }
            if bytes_eq(b, code.as_bytes()) {
                return Some(m);
            }
            k = k + 1;
        }
        assert(b@ != ascii_bytes(metric_code(all@[0])));
        assert(b@ != ascii_bytes(metric_code(all@[1])));
        assert(b@ != ascii_bytes(metric_code(all@[2])));
        assert(b@ != ascii_bytes(metric_code(all@[3])));
        assert(b@ != ascii_bytes(metric_code(all@[4])));
        assert(b@ != ascii_bytes(metric_code(all@[5])));
        assert(b@ != ascii_bytes(metric_code(all@[6])));
        None
    }
}

/// The counter field of an identity and a counter kind:
/// `<field key>|<suffix>`.
pub open spec fn metric_field_chars(worker: Seq<char>, m: Metric) -> Seq<char> {
    field_key_chars(worker) + seq!['|'] + metric_code(m)
}

/// True when `i` is the position of the last `|` byte.
pub open spec fn is_last_pipe(b: Seq<u8>, i: int) -> bool {
    &&& 0 <= i < b.len()
    &&& b[i] == PIPE
    &&& forall|j: int| i < j < b.len() ==> b[j] != PIPE
}

/// Position of the last `|` byte, if any.
pub open spec fn last_pipe(b: Seq<u8>) -> Option<int> {
    if exists|i: int| is_last_pipe(b, i) {
        Some(choose|i: int| is_last_pipe(b, i))
    } else {
        None
    }
}

proof fn lemma_last_pipe_unique(b: Seq<u8>, i: int)
    requires
        is_last_pipe(b, i),
    ensures
        last_pipe(b) == Some(i),
{
    let k = choose|k: int| is_last_pipe(b, k);
    assert(is_last_pipe(b, k));
    if k < i {
        assert(b[i] != PIPE);
    } else if i < k {
        assert(b[k] != PIPE);
    }
}

/// What a counter field names: the text after the last `|` must be a known
/// suffix, and the text before it a field key.
pub open spec fn parse_metric_field(b: Seq<u8>) -> Option<(Seq<u8>, Metric)> {
    match last_pipe(b) {
        None => None,
        Some(i) => match metric_of_bytes(b.skip(i + 1)) {
            None => None,
            Some(m) => match parse_field_key(b.take(i)) {
                None => None,
                Some(w) => Some((w, m)),
            },
        },
    }
}

impl MetricIdentity {
    /// The counter field of this identity for a counter kind.
    pub fn metric_field(&self, metric: Metric) -> (f: String)
        requires
            utf8(self.worker@).len() <= usize::MAX,
        ensures
            f@ == metric_field_chars(self.worker@, metric),
    {
        let key = self.field_key();
        let mut v = chars_of(key.as_str());
        v.push('|');
        extend_chars(&mut v, metric.code());
        string_of(&v)
    }
}

/// Splits a counter field into the identity and counter kind it names.
pub fn split_metric_field(field: &str) -> (r: Option<(MetricIdentity, Metric)>)
    ensures
        match r {
            Some((id, m)) => parse_metric_field(utf8(field@)) == Some((utf8(id.worker@), m)),
            None => parse_metric_field(utf8(field@)) is None,
        },
{
    let bytes = field.as_bytes();
    let ghost fb = utf8(field@);
    assert(bytes@ == fb);
    let len = bytes.len();
    let mut i: usize = len;
    while i > 0
        invariant
            i <= len,
            len == fb.len(),
            bytes@ == fb,
            forall|j: int| i <= j < len ==> fb[j] != PIPE,
        ensures
            forall|j: int| i <= j < len ==> fb[j] != PIPE,
            i > 0 ==> fb[i - 1] == PIPE,
        decreases i,
    {
        if bytes[i - 1] == PIPE {
            break;
        }
        i = i - 1;
    }
    if i == 0 {
        assert(!exists|c: int| is_last_pipe(fb, c)) by {
            if exists|c: int| is_last_pipe(fb, c) {
                let c = choose|c: int| is_last_pipe(fb, c);
                assert(fb[c] != PIPE);
            }
        }
        return None;
    }
    let p = i - 1;
    assert(is_last_pipe(fb, p as int));
    proof {
        lemma_last_pipe_unique(fb, p as int);
        is_char_boundary_iff_not_is_continuation_byte(fb, p as int);
    }
    let (head, tail) = field.split_at(p);
    assert(utf8(head@) =~= fb.take(p as int));
    let ghost tb = utf8(tail@);
    assert(tb =~= fb.subrange(p as int, fb.len() as int));
    proof {
        lemma_ascii_char_boundary_after(tb);
    }
    let (_pipe, suffix) = tail.split_at(1);
    assert(utf8(suffix@) =~= fb.skip(p + 1));
    let metric = match Metric::from_bytes(suffix.as_bytes()) {
        None => {
            return None;
        },
        Some(m) => m,
    };
    match MetricIdentity::from_field_key(head) {
        None => None,
        Some(id) => Some((id, metric)),
    }
}

/// Round trip of counter fields: splitting the field written for an
/// identity and a counter kind gives them back, whatever the worker name
/// holds (`|` and `:` included).
pub proof fn lemma_metric_field_round_trip(worker: Seq<char>, m: Metric)
    requires
        utf8(worker).len() <= usize::MAX,
    ensures
        parse_metric_field(utf8(metric_field_chars(worker, m))) == Some((utf8(worker), m)),
{
    let key = field_key_chars(worker);
    let pipe = seq!['|'];
    let code = metric_code(m);
    lemma_metric_code_ascii(m);
    lemma_utf8_concat(key + pipe, code);
    lemma_utf8_concat(key, pipe);
    assert(all_ascii(pipe));
    lemma_utf8_ascii(pipe);
    assert(ascii_bytes(pipe) =~= seq![PIPE]);
    let kb = utf8(key);
    let cb = ascii_bytes(code);
    let fb = utf8(metric_field_chars(worker, m));
    assert(fb =~= kb + seq![PIPE] + cb);
    let i = kb.len() as int;
    assert forall|j: int| i < j < fb.len() implies fb[j] != PIPE by {
        assert(fb[j] == cb[j - i - 1]);
        assert(code[j - i - 1] != '|');
        assert((code[j - i - 1] as u32) < 0x80);
    }
    assert(is_last_pipe(fb, i));
    lemma_last_pipe_unique(fb, i);
    assert(fb.skip(i + 1) =~= cb);
    assert(fb.take(i) =~= kb);
    lemma_field_key_round_trip(worker);
}

/// How long per-minute counters are kept, in seconds.
pub const METRICS_RETENTION_SECS: i64 = 28800;
/// Window used when a query asks for zero minutes.
pub const DEFAULT_METRIC_MINUTES: usize = 60;
/// Longest window a query can ask for, in minutes.
pub const MAX_METRIC_MINUTES: usize = 480;
/// Number of execution-time histogram buckets.
pub const HISTOGRAM_BUCKET_COUNT: usize = 14;

/// Exclusive upper bound, in milliseconds, of each histogram bucket; the
/// last bucket takes everything else.
pub open spec fn histogram_bound(idx: int) -> u64 {
    if idx == 0 { 25 }
    else if idx == 1 { 50 }
    else if idx == 2 { 100 }
    else if idx == 3 { 250 }
    else if idx == 4 { 500 }
    else if idx == 5 { 1000 }
    else if idx == 6 { 2500 }
    else if idx == 7 { 5000 }
    else if idx == 8 { 10000 }
    else if idx == 9 { 30000 }
    else if idx == 10 { 60000 }
    else if idx == 11 { 120000 }
    else if idx == 12 { 300000 }
    else { u64::MAX }
}

/// The exclusive upper bounds of the histogram buckets, in milliseconds.
pub fn histogram_bucket_intervals_ms() -> (r: [u64; HISTOGRAM_BUCKET_COUNT])
    ensures
        forall|i: int| 0 <= i < 14 ==> #[trigger] r@[i] == histogram_bound(i),
{
    [25, 50, 100, 250, 500, 1000, 2500, 5000, 10000, 30000, 60000, 120000, 300000, u64::MAX]
}

/// Display label of each histogram bucket.
pub open spec fn histogram_label(idx: int) -> Seq<char> {
    if idx == 0 { seq!['2', '5', 'm', 's'] }
    else if idx == 1 { seq!['5', '0', 'm', 's'] }
    else if idx == 2 { seq!['1', '0', '0', 'm', 's'] }
    else if idx == 3 { seq!['2', '5', '0', 'm', 's'] }
    else if idx == 4 { seq!['5', '0', '0', 'm', 's'] }
    else if idx == 5 { seq!['1', 's'] }
    else if idx == 6 { seq!['2', '.', '5', 's'] }
    else if idx == 7 { seq!['5', 's'] }
    else if idx == 8 { seq!['1', '0', 's'] }
    else if idx == 9 { seq!['3', '0', 's'] }
    else if idx == 10 { seq!['6', '0', 's'] }
    else if idx == 11 { seq!['1', '2', '0', 's'] }
    else if idx == 12 { seq!['5', 'm', 'i', 'n'] }
    else { seq!['S', 'l', 'o', 'w'] }
}

/// Display label of a histogram bucket.
pub fn histogram_bucket_label(idx: usize) -> (l: &'static str)
    requires
        idx < HISTOGRAM_BUCKET_COUNT,
    ensures
        l@ == histogram_label(idx as int),
{
    if idx == 0 { proof { reveal_strlit("25ms"); } "25ms" }
    else if idx == 1 { proof { reveal_strlit("50ms"); } "50ms" }
    else if idx == 2 { proof { reveal_strlit("100ms"); } "100ms" }
    else if idx == 3 { proof { reveal_strlit("250ms"); } "250ms" }
    else if idx == 4 { proof { reveal_strlit("500ms"); } "500ms" }
    else if idx == 5 { proof { reveal_strlit("1s"); } "1s" }
    else if idx == 6 { proof { reveal_strlit("2.5s"); } "2.5s" }
    else if idx == 7 { proof { reveal_strlit("5s"); } "5s" }
    else if idx == 8 { proof { reveal_strlit("10s"); } "10s" }
    else if idx == 9 { proof { reveal_strlit("30s"); } "30s" }
    else if idx == 10 { proof { reveal_strlit("60s"); } "60s" }
    else if idx == 11 { proof { reveal_strlit("120s"); } "120s" }
    else if idx == 12 { proof { reveal_strlit("5min"); } "5min" }
    else { proof { reveal_strlit("Slow"); } "Slow" }
}

/// Index of the first bucket whose bound exceeds the duration.
pub open spec fn bucket_of(duration_ms: u64) -> int {
    if duration_ms < 25 { 0 }
    else if duration_ms < 50 { 1 }
    else if duration_ms < 100 { 2 }
    else if duration_ms < 250 { 3 }
    else if duration_ms < 500 { 4 }
    else if duration_ms < 1000 { 5 }
    else if duration_ms < 2500 { 6 }
    else if duration_ms < 5000 { 7 }
    else if duration_ms < 10000 { 8 }
    else if duration_ms < 30000 { 9 }
    else if duration_ms < 60000 { 10 }
    else if duration_ms < 120000 { 11 }
    else if duration_ms < 300000 { 12 }
    else { 13 }
}

proof fn lemma_bucket_of(d: u64, i: int)
    requires
        0 <= i < 14,
        i < 13 ==> d < histogram_bound(i),
        forall|j: int| 0 <= j < i ==> d >= #[trigger] histogram_bound(j),
    ensures
        bucket_of(d) == i,
{
    let b0 = histogram_bound(0);
    let b1 = histogram_bound(1);
    let b2 = histogram_bound(2);
    let b3 = histogram_bound(3);
    let b4 = histogram_bound(4);
    let b5 = histogram_bound(5);
    let b6 = histogram_bound(6);
    let b7 = histogram_bound(7);
    let b8 = histogram_bound(8);
    let b9 = histogram_bound(9);
    let b10 = histogram_bound(10);
    let b11 = histogram_bound(11);
    let b12 = histogram_bound(12);
}

/// The histogram bucket of an execution time: the first bucket whose upper
/// bound exceeds it, or the last bucket.
pub fn histogram_bucket_index(duration_ms: u64) -> (idx: usize)
    ensures
        idx < HISTOGRAM_BUCKET_COUNT,
        idx == bucket_of(duration_ms),
        idx < 13 ==> duration_ms < histogram_bound(idx as int),
        forall|j: int| 0 <= j < idx ==> duration_ms >= #[trigger] histogram_bound(j),
{
    let bounds = histogram_bucket_intervals_ms();
    let mut i: usize = 0;
    while i < HISTOGRAM_BUCKET_COUNT
        invariant
            i <= HISTOGRAM_BUCKET_COUNT,
            forall|k: int| 0 <= k < 14 ==> #[trigger] bounds@[k] == histogram_bound(k),
            forall|j: int| 0 <= j < i ==> duration_ms >= #[trigger] histogram_bound(j),
        decreases HISTOGRAM_BUCKET_COUNT - i,
    {
        if duration_ms < bounds[i] {
            proof {
                lemma_bucket_of(duration_ms, i as int);
            }
            return i;
        }
        i = i + 1;
    }
    proof {
        lemma_bucket_of(duration_ms, 13);
    }
    HISTOGRAM_BUCKET_COUNT - 1
}

/// A window of minutes to report on.
#[derive(Debug, Clone, Copy)]
pub struct JobMetricsQuery {
    pub minutes: usize,
}

/// The window a query actually covers: the default for zero, otherwise
/// the requested minutes capped at the maximum.
pub open spec fn effective_minutes_of(minutes: usize) -> usize {
    if minutes == 0 {
        DEFAULT_METRIC_MINUTES
    } else if minutes < MAX_METRIC_MINUTES {
        minutes
    } else {
        MAX_METRIC_MINUTES
    }
}

impl JobMetricsQuery {
    pub fn new(minutes: usize) -> (q: Self)
        ensures
            q.minutes == minutes,
    {
        JobMetricsQuery { minutes }
    }

    /// The window this query covers, in minutes.
    pub fn effective_minutes(&self) -> (m: usize)
        ensures
            m == effective_minutes_of(self.minutes),
            1 <= m <= MAX_METRIC_MINUTES,
    {
        if self.minutes == 0 {
            DEFAULT_METRIC_MINUTES
        } else if self.minutes < MAX_METRIC_MINUTES {
            self.minutes
        } else {
            MAX_METRIC_MINUTES
        }
    }
}

impl Default for JobMetricsQuery {
    fn default() -> (q: Self)
        ensures
            q.minutes == DEFAULT_METRIC_MINUTES,
    {
        JobMetricsQuery { minutes: DEFAULT_METRIC_MINUTES }
    }
}

/// `a + b`, or `u64::MAX` when that overflows.
pub open spec fn sat_add(a: u64, b: u64) -> u64 {
    if a + b > u64::MAX { u64::MAX } else { (a + b) as u64 }
}

/// `a - b`, or zero when that would be negative.
pub open spec fn sat_sub(a: u64, b: u64) -> u64 {
    if a < b { 0 } else { (a - b) as u64 }
}

/// Counters over a window, for all workers or for one.
#[derive(Debug, Clone, Copy, Default)]
pub struct JobMetricsTotals {
    /// Jobs completed, including successes, failures, and panics. Batch jobs count individually.
    pub processed: u64,
    /// Jobs completed successfully. Batch jobs count individually.
    pub succeeded: u64,
    /// Jobs that failed or panicked. Batch jobs count individually.
    pub failed: u64,
    /// Jobs that panicked. Batch jobs count individually.
    pub panicked: u64,
    /// Successful worker executions. Batch workers count once per batch.
    pub successful_executions: u64,
    /// Worker executions that failed or panicked. Batch workers count once per batch.
    pub failed_executions: u64,
    /// Panicked worker executions. Batch workers count once per batch.
    pub panicked_executions: u64,
    /// Total duration for successful worker executions. Batch duration counts once per batch.
    pub execution_ms: u64,
}

/// Counters of one minute bucket.
#[derive(Debug, Clone, Copy, Default)]
pub struct JobMetricsPoint {
    /// Start timestamp for this minute bucket.
    pub timestamp: i64,
    /// Jobs completed, including successes, failures, and panics. Batch jobs count individually.
    pub processed: u64,
    /// Jobs completed successfully. Batch jobs count individually.
    pub succeeded: u64,
    /// Jobs that failed or panicked. Batch jobs count individually.
    pub failed: u64,
    /// Jobs that panicked. Batch jobs count individually.
    pub panicked: u64,
    /// Successful worker executions. Batch workers count once per batch.
    pub successful_executions: u64,
    /// Worker executions that failed or panicked. Batch workers count once per batch.
    pub failed_executions: u64,
    /// Panicked worker executions. Batch workers count once per batch.
    pub panicked_executions: u64,
    /// Total duration for successful worker executions. Batch duration counts once per batch.
    pub execution_ms: u64,
}

/// A set of counters with `value` added (saturating) to the one `metric`
/// names.
pub open spec fn totals_add(t: JobMetricsTotals, metric: Metric, value: u64) -> JobMetricsTotals {
    match metric {
        Metric::ProcessedJobs => JobMetricsTotals { processed: sat_add(t.processed, value), ..t },
        Metric::FailedJobs => JobMetricsTotals { failed: sat_add(t.failed, value), ..t },
        Metric::PanickedJobs => JobMetricsTotals { panicked: sat_add(t.panicked, value), ..t },
        Metric::SuccessfulExecutions => JobMetricsTotals {
            successful_executions: sat_add(t.successful_executions, value),
            ..t
        },
        Metric::FailedExecutions => JobMetricsTotals {
            failed_executions: sat_add(t.failed_executions, value),
            ..t
        },
        Metric::PanickedExecutions => JobMetricsTotals {
            panicked_executions: sat_add(t.panicked_executions, value),
            ..t
        },
        Metric::ExecutionMs => JobMetricsTotals { execution_ms: sat_add(t.execution_ms, value), ..t },
    }
}

/// Derives `succeeded` from `processed - failed`; when no execution was
/// counted at all (counters written before executions were tracked), the
/// execution counters take the job counters.
pub open spec fn totals_finalized(t: JobMetricsTotals) -> JobMetricsTotals {
    let succeeded = sat_sub(t.processed, t.failed);
    if t.successful_executions + t.failed_executions + t.panicked_executions == 0 {
        JobMetricsTotals {
            succeeded,
            successful_executions: succeeded,
            failed_executions: t.failed,
            panicked_executions: t.panicked,
            ..t
        }
    } else {
        JobMetricsTotals { succeeded, ..t }
    }
}

/// The point counterpart of `totals_add`.
pub open spec fn point_add(t: JobMetricsPoint, metric: Metric, value: u64) -> JobMetricsPoint {
    match metric {
        Metric::ProcessedJobs => JobMetricsPoint { processed: sat_add(t.processed, value), ..t },
        Metric::FailedJobs => JobMetricsPoint { failed: sat_add(t.failed, value), ..t },
        Metric::PanickedJobs => JobMetricsPoint { panicked: sat_add(t.panicked, value), ..t },
        Metric::SuccessfulExecutions => JobMetricsPoint {
            successful_executions: sat_add(t.successful_executions, value),
            ..t
        },
        Metric::FailedExecutions => JobMetricsPoint {
            failed_executions: sat_add(t.failed_executions, value),
            ..t
        },
        Metric::PanickedExecutions => JobMetricsPoint {
            panicked_executions: sat_add(t.panicked_executions, value),
            ..t
        },
        Metric::ExecutionMs => JobMetricsPoint { execution_ms: sat_add(t.execution_ms, value), ..t },
    }
}

/// The point counterpart of `totals_finalized`.
pub open spec fn point_finalized(t: JobMetricsPoint) -> JobMetricsPoint {
    let succeeded = sat_sub(t.processed, t.failed);
    if t.successful_executions + t.failed_executions + t.panicked_executions == 0 {
        JobMetricsPoint {
            succeeded,
            successful_executions: succeeded,
            failed_executions: t.failed,
            panicked_executions: t.panicked,
            ..t
        }
    } else {
        JobMetricsPoint { succeeded, ..t }
    }
}

impl JobMetricsTotals {
    /// Failed executions that did not panic.
    pub fn failed_executions_without_panics(&self) -> (r: u64)
        ensures
            r == sat_sub(self.failed_executions, self.panicked_executions),
    {
        self.failed_executions.saturating_sub(self.panicked_executions)
    }

    /// Adds `value` to the counter that `metric` names, saturating.
    pub fn add_metric(&mut self, metric: Metric, value: u64)
        ensures
            *final(self) == totals_add(*old(self), metric, value),
    {
        match metric {
            Metric::ProcessedJobs => self.processed = self.processed.saturating_add(value),
            Metric::FailedJobs => self.failed = self.failed.saturating_add(value),
            Metric::PanickedJobs => self.panicked = self.panicked.saturating_add(value),
            Metric::SuccessfulExecutions => {
                self.successful_executions = self.successful_executions.saturating_add(value);
            },
            Metric::FailedExecutions => {
                self.failed_executions = self.failed_executions.saturating_add(value);
            },
            Metric::PanickedExecutions => {
                self.panicked_executions = self.panicked_executions.saturating_add(value);
            },
            Metric::ExecutionMs => self.execution_ms = self.execution_ms.saturating_add(value),
        }
    }

    /// Fills in the derived counters (see `totals_finalized`).
    pub fn finalize(&mut self)
        ensures
            *final(self) == totals_finalized(*old(self)),
    {
        self.succeeded = self.processed.saturating_sub(self.failed);
        if self.successful_executions == 0 && self.failed_executions == 0
            && self.panicked_executions == 0 {
            self.successful_executions = self.succeeded;
            self.failed_executions = self.failed;
            self.panicked_executions = self.panicked;
        }
    }
}

impl JobMetricsPoint {
    /// Failed executions that did not panic.
    pub fn failed_executions_without_panics(&self) -> (r: u64)
        ensures
            r == sat_sub(self.failed_executions, self.panicked_executions),
    {
        self.failed_executions.saturating_sub(self.panicked_executions)
    }

    /// Adds `value` to the counter that `metric` names, saturating.
    pub fn add_metric(&mut self, metric: Metric, value: u64)
        ensures
            *final(self) == point_add(*old(self), metric, value),
    {
        match metric {
            Metric::ProcessedJobs => self.processed = self.processed.saturating_add(value),
            Metric::FailedJobs => self.failed = self.failed.saturating_add(value),
            Metric::PanickedJobs => self.panicked = self.panicked.saturating_add(value),
            Metric::SuccessfulExecutions => {
                self.successful_executions = self.successful_executions.saturating_add(value);
            },
            Metric::FailedExecutions => {
                self.failed_executions = self.failed_executions.saturating_add(value);
            },
            Metric::PanickedExecutions => {
                self.panicked_executions = self.panicked_executions.saturating_add(value);
            },
            Metric::ExecutionMs => self.execution_ms = self.execution_ms.saturating_add(value),
        }
    }

    /// Fills in the derived counters (see `point_finalized`).
    pub fn finalize(&mut self)
        ensures
            *final(self) == point_finalized(*old(self)),
    {
        self.succeeded = self.processed.saturating_sub(self.failed);
        if self.successful_executions == 0 && self.failed_executions == 0
            && self.panicked_executions == 0 {
            self.successful_executions = self.succeeded;
            self.failed_executions = self.failed;
            self.panicked_executions = self.panicked;
        }
    }
}

/// `floor(ts / 60)`: the minute a Unix timestamp falls in.
pub fn minute_of(ts: i64) -> (m: i64)
    ensures
        m == ts / 60,
{
    if ts >= 0 {
        ((ts as u64) / 60) as i64
    } else {
        let k = ((-(ts + 1)) as u64) / 60;
        assert(ts / 60 == -(k as int) - 1) by (nonlinear_arith)
            requires
                ts < 0,
                k == (-(ts + 1)) / 60,
        ;
        -(k as i64) - 1
    }
}

/// The minutes a query covers, ending with the minute of `now_ts`.
pub open spec fn metric_minutes_spec(now_ts: i64, minutes: usize) -> Seq<i64> {
    let n = effective_minutes_of(minutes);
    let end = now_ts / 60;
    Seq::new(n as nat, |k: int| (end - n + 1 + k) as i64)
}

/// A query's window: consecutive minutes ending with the minute of
/// `now_ts`; as many as asked for, up to the limit, and the default
/// number when none are asked for.
pub proof fn lemma_metric_minutes_window(now_ts: i64, minutes: usize)
    ensures
        ({
            let w = metric_minutes_spec(now_ts, minutes);
            &&& 1 <= w.len() <= MAX_METRIC_MINUTES
            &&& minutes == 0 ==> w.len() == DEFAULT_METRIC_MINUTES
            &&& 0 < minutes <= MAX_METRIC_MINUTES ==> w.len() == minutes
            &&& w.last() == now_ts / 60
            &&& forall|k: int| 0 <= k < w.len() - 1 ==> #[trigger] w[k + 1] == w[k] + 1
        }),
{
    let w = metric_minutes_spec(now_ts, minutes);
    let n = effective_minutes_of(minutes);
    let end = now_ts / 60;
    assert(w[w.len() - 1] == (end - n + 1 + (n - 1)) as i64);
    assert forall|k: int| 0 <= k < w.len() - 1 implies #[trigger] w[k + 1] == w[k] + 1 by {
        assert(w[k] == (end - n + 1 + k) as i64);
        assert(w[k + 1] == (end - n + 1 + k + 1) as i64);
    }
}

/// The minutes a query covers, oldest first, ending with the minute of
/// `now_ts`.
pub fn metric_minutes(now_ts: i64, query: JobMetricsQuery) -> (r: Vec<i64>)
    ensures
        r@ == metric_minutes_spec(now_ts, query.minutes),
        1 <= r@.len() <= MAX_METRIC_MINUTES,
        query.minutes == 0 ==> r@.len() == DEFAULT_METRIC_MINUTES,
        0 < query.minutes <= MAX_METRIC_MINUTES ==> r@.len() == query.minutes,
        r@.last() == now_ts / 60,
        forall|k: int| 0 <= k < r@.len() - 1 ==> #[trigger] r@[k + 1] == r@[k] + 1,
{
    proof {
        lemma_metric_minutes_window(now_ts, query.minutes);
    }
    let n = query.effective_minutes();
    let end = minute_of(now_ts);
    let start = end - (n as i64) + 1;
    let mut r: Vec<i64> = Vec::new();
    let mut k: usize = 0;
    while k < n
        invariant
            k <= n,
            1 <= n <= MAX_METRIC_MINUTES,
            n == effective_minutes_of(query.minutes),
            end == now_ts / 60,
            start == end - n + 1,
            r@ =~= Seq::new(k as nat, |j: int| (start + j) as i64),
        decreases n - k,
    {
        r.push(start + k as i64);
        k = k + 1;
    }
    r
}

/// Counters buffered in memory for one worker and minute before they are
/// written out.
#[derive(Debug)]
pub struct PendingJobMetrics {
    pub processed: u64,
    pub failed: u64,
    pub panicked: u64,
    pub successful_executions: u64,
    pub failed_executions: u64,
    pub panicked_executions: u64,
    pub execution_ms: u64,
    /// Successful executions per execution-time bucket.
    pub histogram: [u64; HISTOGRAM_BUCKET_COUNT],
}

/// Buffered counters with nothing counted yet.
pub open spec fn pending_zero() -> PendingJobMetrics {
    PendingJobMetrics {
        processed: 0,
        failed: 0,
        panicked: 0,
        successful_executions: 0,
        failed_executions: 0,
        panicked_executions: 0,
        execution_ms: 0,
        histogram: vstd::array::spec_array_fill_for_copy_type::<u64, HISTOGRAM_BUCKET_COUNT>(0),
    }
}

/// Buffered counters after one more execution result: its jobs count as
/// processed; a success counts one successful execution, its duration and
/// one entry in the duration's histogram bucket; a panic counts its jobs as
/// failed and panicked and one failed and panicked execution; a failure
/// counts its jobs as failed and one failed execution. All additions
/// saturate.
pub open spec fn pending_after(p: PendingJobMetrics, kind: WorkerResultKind, execution_ms: u64, job_count: u64)
    -> PendingJobMetrics {
    let processed = sat_add(p.processed, job_count);
    match kind {
        WorkerResultKind::Success => {
            let b = bucket_of(execution_ms);
            PendingJobMetrics {
                processed,
                successful_executions: sat_add(p.successful_executions, 1),
                execution_ms: sat_add(p.execution_ms, execution_ms),
                histogram: vstd::array::spec_array_update(p.histogram, b, sat_add(p.histogram@[b], 1)),
                ..p
            }
        },
        WorkerResultKind::Panicked => PendingJobMetrics {
            processed,
            failed: sat_add(p.failed, job_count),
            panicked: sat_add(p.panicked, job_count),
            failed_executions: sat_add(p.failed_executions, 1),
            panicked_executions: sat_add(p.panicked_executions, 1),
            ..p
        },
        WorkerResultKind::Failed => PendingJobMetrics {
            processed,
            failed: sat_add(p.failed, job_count),
            failed_executions: sat_add(p.failed_executions, 1),
            ..p
        },
    }
}

impl PendingJobMetrics {
    pub fn new() -> (p: Self)
        ensures
            p == pending_zero(),
    {
        PendingJobMetrics {
            processed: 0,
            failed: 0,
            panicked: 0,
            successful_executions: 0,
            failed_executions: 0,
            panicked_executions: 0,
            execution_ms: 0,
            histogram: [0u64; HISTOGRAM_BUCKET_COUNT],
        }
    }

    /// Counts one execution result (see `pending_after`).
    pub fn add_result(&mut self, kind: WorkerResultKind, execution_ms: u64, job_count: u64)
        ensures
            *final(self) == pending_after(*old(self), kind, execution_ms, job_count),
    {
        self.processed = self.processed.saturating_add(job_count);
        match kind {
            WorkerResultKind::Success => {
                self.successful_executions = self.successful_executions.saturating_add(1);
                self.execution_ms = self.execution_ms.saturating_add(execution_ms);
                let bucket = histogram_bucket_index(execution_ms);
                let count = self.histogram[bucket];
                self.histogram[bucket] = count.saturating_add(1);
            },
            WorkerResultKind::Panicked => {
                self.failed = self.failed.saturating_add(job_count);
                self.panicked = self.panicked.saturating_add(job_count);
                self.failed_executions = self.failed_executions.saturating_add(1);
                self.panicked_executions = self.panicked_executions.saturating_add(1);
            },
            WorkerResultKind::Failed => {
                self.failed = self.failed.saturating_add(job_count);
                self.failed_executions = self.failed_executions.saturating_add(1);
            },
        }
    }
}

/// Buffered counters of one worker in one minute.
#[derive(Debug)]
pub struct BufferedJobMetrics {
    pub minute: i64,
    pub identity: MetricIdentity,
    pub metrics: PendingJobMetrics,
}

/// Counters not yet written out, one group per (minute, worker).
#[derive(Debug)]
pub struct JobMetricsBuffer {
    entries: Vec<BufferedJobMetrics>,
}

/// The key a buffered group is filed under.
pub open spec fn buffered_key(e: BufferedJobMetrics) -> (i64, Seq<char>) {
    (e.minute, e.identity.worker@)
}

/// The buffer after counting one result in `minute`.
pub open spec fn buffer_record(
    v: Map<(i64, Seq<char>), PendingJobMetrics>,
    minute: i64,
    worker: Seq<char>,
    kind: WorkerResultKind,
    execution_ms: u64,
    job_count: u64,
) -> Map<(i64, Seq<char>), PendingJobMetrics> {
    let key = (minute, worker);
    let base = if v.contains_key(key) { v[key] } else { pending_zero() };
    v.insert(key, pending_after(base, kind, execution_ms, job_count))
}

impl JobMetricsBuffer {
    /// No two groups share a key.
    pub closed spec fn wf(&self) -> bool {
        forall|i: int, j: int|
            0 <= i < j < self.entries@.len() ==> buffered_key(self.entries@[i]) != buffered_key(
                self.entries@[j],
            )
    }

    /// The buffered groups by (minute, worker name).
    pub closed spec fn view(&self) -> Map<(i64, Seq<char>), PendingJobMetrics> {
        Map::new(
            |k: (i64, Seq<char>)| exists|i: int| 0 <= i < self.entries@.len() && buffered_key(self.entries@[i]) == k,
            |k: (i64, Seq<char>)| self.entries@[choose|i: int| 0 <= i < self.entries@.len() && buffered_key(self.entries@[i]) == k].metrics,
        )
    }

    pub fn new() -> (b: Self)
        ensures
            b.wf(),
            b.view() == Map::<(i64, Seq<char>), PendingJobMetrics>::empty(),
    {
        let b = JobMetricsBuffer { entries: Vec::new() };
        assert(b.view() =~= Map::<(i64, Seq<char>), PendingJobMetrics>::empty());
        b
    }

    pub fn is_empty(&self) -> (r: bool)
        requires
            self.wf(),
        ensures
            r == (self.view() == Map::<(i64, Seq<char>), PendingJobMetrics>::empty()),
    {
        let r = self.entries.len() == 0;
        if r {
            assert(self.view() =~= Map::<(i64, Seq<char>), PendingJobMetrics>::empty());
        } else {
            assert(self.view().contains_key(buffered_key(self.entries@[0])));
        }
        r
    }

    pub fn clear(&mut self)
        ensures
            final(self).wf(),
            final(self).view() == Map::<(i64, Seq<char>), PendingJobMetrics>::empty(),
    {
        self.entries.clear();
        assert(self.view() =~= Map::<(i64, Seq<char>), PendingJobMetrics>::empty());
    }

    /// The buffered groups, one per (minute, worker).
    pub fn records(&self) -> (r: &Vec<BufferedJobMetrics>)
        requires
            self.wf(),
        ensures
            forall|i: int| #![trigger r@[i]] 0 <= i < r@.len() ==> self.view().contains_key(buffered_key(r@[i]))
                && self.view()[buffered_key(r@[i])] == r@[i].metrics,
            forall|k: (i64, Seq<char>)| #[trigger] self.view().contains_key(k) ==> exists|i: int|
                0 <= i < r@.len() && buffered_key(r@[i]) == k,
            forall|i: int, j: int| 0 <= i < j < r@.len() ==> buffered_key(r@[i]) != buffered_key(r@[j]),
    {
        assert forall|i: int| #![trigger self.entries@[i]] 0 <= i < self.entries@.len() implies self.view().contains_key(buffered_key(self.entries@[i]))
            && self.view()[buffered_key(self.entries@[i])] == self.entries@[i].metrics by {
            let k = buffered_key(self.entries@[i]);
            let c = choose|c: int| 0 <= c < self.entries@.len() && buffered_key(self.entries@[c]) == k;
            if c != i {
                assert(buffered_key(self.entries@[c]) == k);
            }
        }
        &self.entries
    }

    /// Counts one result under `minute`.
    pub fn record_at(&mut self, minute: i64, result: &WorkerResult)
        requires
            old(self).wf(),
        ensures
            final(self).wf(),
            final(self).view() == buffer_record(
                old(self).view(),
                minute,
                result.worker_name@,
                result.kind,
                result.execution_ms,
                result.job_count,
            ),
    {
        let ghost old_view = self.view();
        let ghost key = (minute, result.worker_name@);
        let name = result.worker_name.as_str();
        let n = self.entries.len();
        let mut i: usize = 0;
        while i < n
            invariant
                i <= n,
                n == self.entries@.len(),
                key == (minute, result.worker_name@),
                name@ == result.worker_name@,
                forall|j: int| 0 <= j < i ==> buffered_key(self.entries@[j]) != key,
            ensures
                i <= n,
                forall|j: int| 0 <= j < i ==> buffered_key(self.entries@[j]) != key,
                i < n ==> buffered_key(self.entries@[i as int]) == key,
            decreases n - i,
        {
            if self.entries[i].minute == minute && crate::text::str_eq(
                self.entries[i].identity.worker.as_str(),
                name,
            ) {
                break;
            }
            i = i + 1;
        }
        if i < n {
            let mut entry = self.entries.remove(i);
            entry.metrics.add_result(result.kind, result.execution_ms, result.job_count);
            self.entries.insert(i, entry);
            proof {
                let old_entries = old(self).entries@;
                let new_entries = self.entries@;
                assert(new_entries =~= old_entries.update(i as int, new_entries[i as int]));
                assert(self.view() =~= buffer_record(old_view, minute, result.worker_name@, result.kind, result.execution_ms, result.job_count)) by {
                    assert(old_view.contains_key(key)) by {
                        assert(buffered_key(old_entries[i as int]) == key);
                    }
                    let c = choose|c: int| 0 <= c < old_entries.len() && buffered_key(old_entries[c]) == key;
                    assert(c == i) by {
                        if c != i as int {
                            assert(buffered_key(old_entries[c]) == key);
                        }
                    }
                    assert forall|k: (i64, Seq<char>)| #[trigger] self.view().contains_key(k) == buffer_record(old_view, minute, result.worker_name@, result.kind, result.execution_ms, result.job_count).contains_key(k) by {
                        if exists|j: int| 0 <= j < old_entries.len() && buffered_key(old_entries[j]) == k {
                            let j = choose|j: int| 0 <= j < old_entries.len() && buffered_key(old_entries[j]) == k;
                            assert(buffered_key(new_entries[j]) == k);
                        }
                        if exists|j: int| 0 <= j < new_entries.len() && buffered_key(new_entries[j]) == k {
                            let j = choose|j: int| 0 <= j < new_entries.len() && buffered_key(new_entries[j]) == k;
                            assert(buffered_key(old_entries[j]) == k);
                        }
                    }
                    assert forall|k: (i64, Seq<char>)| #[trigger] self.view().contains_key(k) implies self.view()[k] == buffer_record(old_view, minute, result.worker_name@, result.kind, result.execution_ms, result.job_count)[k] by {
                        let j = choose|j: int| 0 <= j < new_entries.len() && buffered_key(new_entries[j]) == k;
                        let jo = choose|j: int| 0 <= j < old_entries.len() && buffered_key(old_entries[j]) == k;
                        assert(buffered_key(old_entries[j]) == k);
                        if j != jo {
                            assert(buffered_key(old_entries[jo]) == k);
                        }
                    }
                }
            }
        } else {
            let mut metrics = PendingJobMetrics::new();
            metrics.add_result(result.kind, result.execution_ms, result.job_count);
            let identity = MetricIdentity { worker: result.worker_name.clone() };
            self.entries.push(BufferedJobMetrics { minute, identity, metrics });
            proof {
                let old_entries = old(self).entries@;
                let new_entries = self.entries@;
                assert(new_entries =~= old_entries.push(new_entries[n as int]));
                assert(!old_view.contains_key(key));
                assert(self.view() =~= buffer_record(old_view, minute, result.worker_name@, result.kind, result.execution_ms, result.job_count)) by {
                    assert forall|k: (i64, Seq<char>)| #[trigger] self.view().contains_key(k) == buffer_record(old_view, minute, result.worker_name@, result.kind, result.execution_ms, result.job_count).contains_key(k) by {
                        if exists|j: int| 0 <= j < old_entries.len() && buffered_key(old_entries[j]) == k {
                            let j = choose|j: int| 0 <= j < old_entries.len() && buffered_key(old_entries[j]) == k;
                            assert(buffered_key(new_entries[j]) == k);
                        }
                        if k == key {
                            assert(buffered_key(new_entries[n as int]) == k);
                        }
                        if exists|j: int| 0 <= j < new_entries.len() && buffered_key(new_entries[j]) == k {
                            let j = choose|j: int| 0 <= j < new_entries.len() && buffered_key(new_entries[j]) == k;
                            if j < n {
                                assert(buffered_key(old_entries[j]) == k);
                            }
                        }
                    }
                    assert forall|k: (i64, Seq<char>)| #[trigger] self.view().contains_key(k) implies self.view()[k] == buffer_record(old_view, minute, result.worker_name@, result.kind, result.execution_ms, result.job_count)[k] by {
                        let j = choose|j: int| 0 <= j < new_entries.len() && buffered_key(new_entries[j]) == k;
                        if k == key {
                            if j != n as int {
                                assert(buffered_key(old_entries[j]) == k);
                            }
                        } else {
                            assert(j < n);
                            let jo = choose|j: int| 0 <= j < old_entries.len() && buffered_key(old_entries[j]) == k;
                            assert(buffered_key(old_entries[j]) == k);
                            if j != jo {
                                assert(buffered_key(old_entries[jo]) == k);
                            }
                        }
                    }
                }
            }
        }
    }

    /// Counts one result under the minute of the Unix time `now_ts` (in
    /// seconds).
    pub fn record(&mut self, result: &WorkerResult, now_ts: i64)
        requires
            old(self).wf(),
        ensures
            final(self).wf(),
            final(self).view() == buffer_record(
                old(self).view(),
                (now_ts / 60) as i64,
                result.worker_name@,
                result.kind,
                result.execution_ms,
                result.job_count,
            ),
    {
        let minute = minute_of(now_ts);
        self.record_at(minute, result);
    }
}

/// `#<idx>`: how a histogram bucket is addressed in a bitfield command.
pub open spec fn bucket_offset(idx: nat) -> Seq<char> {
    seq!['#'] + decimal(idx)
}

/// Arguments of the bitfield command that adds the first `k` bucket counts
/// to a stored histogram: saturating overflow, then one unsigned 16-bit
/// increment per non-zero bucket, in bucket order.
pub open spec fn increment_args(b: Seq<u64>, k: nat) -> Seq<Seq<char>>
    decreases k,
{
    if k == 0 {
        seq!["OVERFLOW"@, "SAT"@]
    } else {
        let prev = increment_args(b, (k - 1) as nat);
        let v = b[k - 1];
        if v == 0 {
            prev
        } else {
            prev + seq!["INCRBY"@, "u16"@, bucket_offset((k - 1) as nat), decimal(v as nat)]
        }
    }
}

/// Arguments of the bitfield command that reads the first `k` buckets.
pub open spec fn fetch_args(k: nat) -> Seq<Seq<char>>
    decreases k,
{
    if k == 0 {
        Seq::empty()
    } else {
        fetch_args((k - 1) as nat) + seq!["GET"@, "u16"@, bucket_offset((k - 1) as nat)]
    }
}

fn bucket_offset_string(idx: usize) -> (s: String)
    ensures
        s@ == bucket_offset(idx as nat),
{
    let mut v: Vec<char> = Vec::new();
    v.push('#');
    let d = decimal_chars(idx as u64);
    let mut i: usize = 0;
    while i < d.len()
        invariant
            i <= d@.len(),
            v@ == seq!['#'] + d@.take(i as int),
        decreases d.len() - i,
    {
        v.push(d[i]);
        assert(d@.take(i + 1) =~= d@.take(i as int).push(d@[i as int]));
        i = i + 1;
    }
    assert(d@.take(d@.len() as int) =~= d@);
    string_of(&v)
}

/// The bitfield arguments that add the given bucket counts.
pub fn histogram_bitfield_increment_args(buckets: &[u64; HISTOGRAM_BUCKET_COUNT]) -> (args: Vec<String>)
    ensures
        views_of(args@) == increment_args(buckets@, 14),
{
    let mut args: Vec<String> = Vec::new();
    args.push("OVERFLOW".to_string());
    args.push("SAT".to_string());
    let mut idx: usize = 0;
    while idx < HISTOGRAM_BUCKET_COUNT
        invariant
            idx <= HISTOGRAM_BUCKET_COUNT,
            views_of(args@) == increment_args(buckets@, idx as nat),
        decreases HISTOGRAM_BUCKET_COUNT - idx,
    {
        let value = buckets[idx];
        if value != 0 {
            let ghost before = args@;
            args.push("INCRBY".to_string());
            args.push("u16".to_string());
            args.push(bucket_offset_string(idx));
            args.push(string_of(&decimal_chars(value)));
            assert(views_of(args@) =~= views_of(before) + seq![
                "INCRBY"@,
                "u16"@,
                bucket_offset(idx as nat),
                decimal(value as nat),
            ]);
        }
        idx = idx + 1;
    }
    args
}

/// The bitfield arguments that read every bucket.
pub fn histogram_bitfield_fetch_args() -> (args: Vec<String>)
    ensures
        views_of(args@) == fetch_args(14),
{
    let mut args: Vec<String> = Vec::new();
    let mut idx: usize = 0;
    while idx < HISTOGRAM_BUCKET_COUNT
        invariant
            idx <= HISTOGRAM_BUCKET_COUNT,
            views_of(args@) == fetch_args(idx as nat),
        decreases HISTOGRAM_BUCKET_COUNT - idx,
    {
        let ghost before = args@;
        args.push("GET".to_string());
        args.push("u16".to_string());
        args.push(bucket_offset_string(idx));
        assert(views_of(args@) =~= views_of(before) + seq!["GET"@, "u16"@, bucket_offset(idx as nat)]);
        idx = idx + 1;
    }
    args
}

/// One bucket of an execution-time histogram.
#[derive(Debug)]
pub struct JobMetricsHistogramBucket {
    pub label: String,
    pub upper_bound_ms: Option<u64>,
    pub count: u64,
}

/// Labels, bounds and counts of every bucket: the bound of the last bucket
/// is open.
pub fn histogram_buckets_from_counts(counts: &[u64; HISTOGRAM_BUCKET_COUNT]) -> (r: Vec<JobMetricsHistogramBucket>)
    ensures
        r@.len() == HISTOGRAM_BUCKET_COUNT,
        forall|i: int| #![trigger r@[i]] 0 <= i < 14 ==> {
            &&& r@[i].label@ == histogram_label(i)
            &&& r@[i].count == counts@[i]
            &&& r@[i].upper_bound_ms == if i < 13 { Some(histogram_bound(i)) } else { None }
        },
{
    let bounds = histogram_bucket_intervals_ms();
    let mut r: Vec<JobMetricsHistogramBucket> = Vec::new();
    let mut idx: usize = 0;
    while idx < HISTOGRAM_BUCKET_COUNT
        invariant
            idx <= HISTOGRAM_BUCKET_COUNT,
            r@.len() == idx,
            forall|k: int| 0 <= k < 14 ==> #[trigger] bounds@[k] == histogram_bound(k),
            forall|i: int| #![trigger r@[i]] 0 <= i < idx ==> {
                &&& r@[i].label@ == histogram_label(i)
                &&& r@[i].count == counts@[i]
                &&& r@[i].upper_bound_ms == if i < 13 { Some(histogram_bound(i)) } else { None }
            },
        decreases HISTOGRAM_BUCKET_COUNT - idx,
    {
        let upper = if idx < HISTOGRAM_BUCKET_COUNT - 1 { Some(bounds[idx]) } else { None };
        r.push(JobMetricsHistogramBucket {
            label: histogram_bucket_label(idx).to_string(),
            upper_bound_ms: upper,
            count: counts[idx],
        });
        idx = idx + 1;
    }
    r
}

/// Adds each fetched bucket count to the running totals, saturating; a
/// missing count adds nothing and counts past the last bucket are ignored.
pub fn add_histogram_counts(totals: &mut [u64; HISTOGRAM_BUCKET_COUNT], values: &Vec<Option<u64>>)
    ensures
        forall|i: int| #![trigger final(totals)@[i]] 0 <= i < 14 ==> final(totals)@[i] == if i < values@.len() {
            sat_add(old(totals)@[i], match values@[i] { Some(v) => v, None => 0 })
        } else {
            old(totals)@[i]
        },
{
    let mut idx: usize = 0;
    while idx < values.len() && idx < HISTOGRAM_BUCKET_COUNT
        invariant
            idx <= HISTOGRAM_BUCKET_COUNT,
            forall|i: int| #![trigger totals@[i]] 0 <= i < 14 ==> totals@[i] == if i < idx && i < values@.len() {
                sat_add(old(totals)@[i], match values@[i] { Some(v) => v, None => 0 })
            } else {
                old(totals)@[i]
            },
        decreases HISTOGRAM_BUCKET_COUNT - idx,
    {
        let add = match values[idx] {
            Some(v) => v,
            None => 0,
        };
        let t = totals[idx];
        totals[idx] = t.saturating_add(add);
        idx = idx + 1;
    }
}

/// Counters with nothing counted.
pub open spec fn totals_zero() -> JobMetricsTotals {
    JobMetricsTotals {
        processed: 0,
        succeeded: 0,
        failed: 0,
        panicked: 0,
        successful_executions: 0,
        failed_executions: 0,
        panicked_executions: 0,
        execution_ms: 0,
    }
}

/// A minute bucket starting at `timestamp` with nothing counted.
pub open spec fn point_zero(timestamp: i64) -> JobMetricsPoint {
    JobMetricsPoint {
        timestamp,
        processed: 0,
        succeeded: 0,
        failed: 0,
        panicked: 0,
        successful_executions: 0,
        failed_executions: 0,
        panicked_executions: 0,
        execution_ms: 0,
    }
}

impl JobMetricsTotals {
    pub fn zero() -> (t: Self)
        ensures
            t == totals_zero(),
    {
        JobMetricsTotals {
            processed: 0,
            succeeded: 0,
            failed: 0,
            panicked: 0,
            successful_executions: 0,
            failed_executions: 0,
            panicked_executions: 0,
            execution_ms: 0,
        }
    }
}

impl JobMetricsPoint {
    pub fn zero(timestamp: i64) -> (p: Self)
        ensures
            p == point_zero(timestamp),
    {
        JobMetricsPoint {
            timestamp,
            processed: 0,
            succeeded: 0,
            failed: 0,
            panicked: 0,
            successful_executions: 0,
            failed_executions: 0,
            panicked_executions: 0,
            execution_ms: 0,
        }
    }
}

/// A stored counter value as an unsigned count: negative values count as
/// zero.
pub open spec fn raw_value(v: i64) -> u64 {
    if v < 0 { 0 } else { v as u64 }
}

/// True when a worker (by name bytes) passes the optional worker filter.
pub open spec fn passes_filter(filter: Option<Seq<char>>, worker: Seq<u8>) -> bool {
    match filter {
        None => true,
        Some(f) => utf8(f) == worker,
    }
}

/// The worker and counter kind an entry of a counter hash counts towards,
/// if its field names one and the worker passes the filter.
pub open spec fn entry_counter(e: (String, i64), filter: Option<Seq<char>>) -> Option<(Seq<u8>, Metric)> {
    match parse_metric_field(utf8(e.0@)) {
        None => None,
        Some((w, m)) => if passes_filter(filter, w) { Some((w, m)) } else { None },
    }
}

/// Totals after counting the entries of one hash, in order.
pub open spec fn fold_totals(entries: Seq<(String, i64)>, filter: Option<Seq<char>>, t: JobMetricsTotals)
    -> JobMetricsTotals
    decreases entries.len(),
{
    if entries.len() == 0 {
        t
    } else {
        let t0 = fold_totals(entries.drop_last(), filter, t);
        match entry_counter(entries.last(), filter) {
            None => t0,
            Some((_w, m)) => totals_add(t0, m, raw_value(entries.last().1)),
        }
    }
}

/// A minute bucket after counting the entries of its hash, in order.
pub open spec fn fold_point(entries: Seq<(String, i64)>, filter: Option<Seq<char>>, p: JobMetricsPoint)
    -> JobMetricsPoint
    decreases entries.len(),
{
    if entries.len() == 0 {
        p
    } else {
        let p0 = fold_point(entries.drop_last(), filter, p);
        match entry_counter(entries.last(), filter) {
            None => p0,
            Some((_w, m)) => point_add(p0, m, raw_value(entries.last().1)),
        }
    }
}

/// Totals after counting every entry of the given hashes, hash by hash.
pub open spec fn totals_over(hashes: Seq<Vec<(String, i64)>>, filter: Option<Seq<char>>) -> JobMetricsTotals
    decreases hashes.len(),
{
    if hashes.len() == 0 {
        totals_zero()
    } else {
        fold_totals(hashes.last()@, filter, totals_over(hashes.drop_last(), filter))
    }
}

/// Totals of a window: the hashes of its minutes (hashes past the last
/// minute are ignored), finalized.
pub open spec fn window_totals(minutes: Seq<i64>, hashes: Seq<Vec<(String, i64)>>, filter: Option<Seq<char>>)
    -> JobMetricsTotals {
    let n = if hashes.len() < minutes.len() { hashes.len() } else { minutes.len() };
    totals_finalized(totals_over(hashes.take(n as int), filter))
}

/// The bucket of minute `idx` of a window: its counters, finalized, or an
/// empty bucket when no hash was read for it.
pub open spec fn series_point(minutes: Seq<i64>, hashes: Seq<Vec<(String, i64)>>, idx: int, filter: Option<Seq<char>>)
    -> JobMetricsPoint {
    let base = point_zero((minutes[idx] * 60) as i64);
    if idx < hashes.len() {
        point_finalized(fold_point(hashes[idx]@, filter, base))
    } else {
        base
    }
}

/// True when every minute's start timestamp fits in an `i64`.
pub open spec fn minutes_fit(minutes: Seq<i64>) -> bool {
    forall|i: int| 0 <= i < minutes.len() ==> i64::MIN <= #[trigger] minutes[i] * 60 <= i64::MAX
}

/// The counter an entry names, when it passes the filter.
fn entry_counter_exec(entry: &(String, i64), filter: Option<&MetricIdentity>) -> (r: Option<(MetricIdentity, Metric)>)
    ensures
        match r {
            Some((id, m)) => entry_counter(*entry, filter_view(filter)) == Some((utf8(id.worker@), m)),
            None => entry_counter(*entry, filter_view(filter)) is None,
        },
{
    match split_metric_field(entry.0.as_str()) {
        None => None,
        Some((id, m)) => {
            match filter {
                None => Some((id, m)),
                Some(f) => {
                    let same = crate::text::str_eq(id.worker.as_str(), f.worker.as_str());
                    proof {
                        if utf8(f.worker@) == utf8(id.worker@) {
                            crate::text::lemma_utf8_injective(f.worker@, id.worker@);
                        }
                    }
                    if same {
                        Some((id, m))
                    } else {
                        None
                    }
                },
            }
        },
    }
}

/// The worker name an optional identity filter keeps.
pub open spec fn filter_view(filter: Option<&MetricIdentity>) -> Option<Seq<char>> {
    match filter {
        None => None,
        Some(f) => Some(f.worker@),
    }
}

/// Counts the hashes of a window into totals and one bucket per minute,
/// keeping only the counters of the filtered worker when a filter is given.
pub fn aggregate_series(minutes: &Vec<i64>, hashes: &Vec<Vec<(String, i64)>>, filter: Option<&MetricIdentity>)
    -> (r: (JobMetricsTotals, Vec<JobMetricsPoint>))
    requires
        minutes_fit(minutes@),
    ensures
        r.0 == window_totals(minutes@, hashes@, filter_view(filter)),
        r.1@.len() == minutes@.len(),
        forall|i: int| 0 <= i < minutes@.len() ==> #[trigger] r.1@[i] == series_point(
            minutes@,
            hashes@,
            i,
            filter_view(filter),
        ),
{
    let ghost fv = filter_view(filter);
    let mut totals = JobMetricsTotals::zero();
    let mut series: Vec<JobMetricsPoint> = Vec::new();
    let mut idx: usize = 0;
    while idx < minutes.len()
        invariant
            idx <= minutes@.len(),
            minutes_fit(minutes@),
            fv == filter_view(filter),
            series@.len() == idx,
            totals == totals_over(hashes@.take(if idx < hashes@.len() { idx as int } else { hashes@.len() as int }), fv),
            forall|i: int| 0 <= i < idx ==> #[trigger] series@[i] == series_point(minutes@, hashes@, i, fv),
        decreases minutes@.len() - idx,
    {
        assert(i64::MIN <= minutes@[idx as int] * 60 <= i64::MAX);
        let mut point = JobMetricsPoint::zero(minutes[idx] * 60);
        if idx < hashes.len() {
            let hash = &hashes[idx];
            let ghost start = totals;
            let mut j: usize = 0;
            while j < hash.len()
                invariant
                    j <= hash@.len(),
                    fv == filter_view(filter),
                    point == fold_point(hash@.take(j as int), fv, point_zero((minutes@[idx as int] * 60) as i64)),
                    totals == fold_totals(hash@.take(j as int), fv, start),
                decreases hash@.len() - j,
            {
                let entry = &hash[j];
                assert(hash@.take(j + 1).drop_last() =~= hash@.take(j as int));
                assert(hash@.take(j + 1).last() == *entry);
                match entry_counter_exec(entry, filter) {
                    None => {},
                    Some((_id, m)) => {
                        let value: u64 = if entry.1 < 0 { 0 } else { entry.1 as u64 };
                        point.add_metric(m, value);
                        totals.add_metric(m, value);
                    },
                }
                j = j + 1;
            }
            assert(hash@.take(hash@.len() as int) =~= hash@);
            point.finalize();
            proof {
                assert(hashes@.take(idx + 1).drop_last() =~= hashes@.take(idx as int));
                assert(hashes@.take(idx + 1).last() == hashes@[idx as int]);
            }
        }
        series.push(point);
        idx = idx + 1;
    }
    proof {
        let n = if hashes@.len() < minutes@.len() { hashes@.len() } else { minutes@.len() };
        assert(totals == totals_over(hashes@.take(n as int), fv));
    }
    totals.finalize();
    (totals, series)
}

/// Metrics of one worker over a window.
#[derive(Debug)]
pub struct WorkerMetricsSummary {
    /// Worker these metrics belong to.
    pub identity: MetricIdentity,
    /// Totals for this worker over the queried window.
    pub totals: JobMetricsTotals,
    /// Per-minute points for this worker over the queried window.
    pub series: Vec<JobMetricsPoint>,
}

/// Totals, per-minute series and per-worker summaries of a window.
#[derive(Debug)]
pub struct JobMetricsAggregation {
    pub totals: JobMetricsTotals,
    pub series: Vec<JobMetricsPoint>,
    pub workers: Vec<WorkerMetricsSummary>,
}

/// True when an entry of a hash read for one of the window's minutes
/// counts towards worker `w` (by name bytes).
pub open spec fn worker_counted(minutes: Seq<i64>, hashes: Seq<Vec<(String, i64)>>, filter: Option<Seq<char>>, w: Seq<u8>)
    -> bool {
    exists|idx: int, j: int| entry_counts_for(minutes, hashes, filter, w, idx, j)
}

/// Entry `j` of hash `idx` is in the window and counts towards `w`.
pub open spec fn entry_counts_for(
    minutes: Seq<i64>,
    hashes: Seq<Vec<(String, i64)>>,
    filter: Option<Seq<char>>,
    w: Seq<u8>,
    idx: int,
    j: int,
) -> bool {
    &&& 0 <= idx < minutes.len()
    &&& idx < hashes.len()
    &&& 0 <= j < hashes[idx]@.len()
    &&& entry_counter(hashes[idx]@[j], filter) is Some
    &&& entry_counter(hashes[idx]@[j], filter)->Some_0.0 == w
}

/// A worker summary holds the totals and series of its worker alone.
pub open spec fn summary_matches(s: WorkerMetricsSummary, minutes: Seq<i64>, hashes: Seq<Vec<(String, i64)>>) -> bool {
    &&& s.totals == window_totals(minutes, hashes, Some(s.identity.worker@))
    &&& s.series@.len() == minutes.len()
    &&& forall|i: int| 0 <= i < minutes.len() ==> #[trigger] s.series@[i] == series_point(
        minutes,
        hashes,
        i,
        Some(s.identity.worker@),
    )
}

/// The order of worker summaries: more execution time first, then more
/// processed jobs, then by worker name.
pub open spec fn summary_before(a: WorkerMetricsSummary, b: WorkerMetricsSummary) -> bool {
    ||| a.totals.execution_ms > b.totals.execution_ms
    ||| (a.totals.execution_ms == b.totals.execution_ms && a.totals.processed > b.totals.processed)
    ||| (a.totals.execution_ms == b.totals.execution_ms && a.totals.processed == b.totals.processed
        && bytes_lt(utf8(a.identity.worker@), utf8(b.identity.worker@)))
}

proof fn lemma_summary_before_transitive(a: WorkerMetricsSummary, b: WorkerMetricsSummary, c: WorkerMetricsSummary)
    requires
        summary_before(a, b),
        summary_before(b, c),
    ensures
        summary_before(a, c),
{
    if a.totals.execution_ms == b.totals.execution_ms && b.totals.execution_ms == c.totals.execution_ms
        && a.totals.processed == b.totals.processed && b.totals.processed == c.totals.processed {
        lemma_bytes_lt_transitive(
            utf8(a.identity.worker@),
            utf8(b.identity.worker@),
            utf8(c.identity.worker@),
        );
    }
}

fn summary_before_exec(a: &WorkerMetricsSummary, b: &WorkerMetricsSummary) -> (r: bool)
    ensures
        r == summary_before(*a, *b),
{
    if a.totals.execution_ms != b.totals.execution_ms {
        a.totals.execution_ms > b.totals.execution_ms
    } else if a.totals.processed != b.totals.processed {
        a.totals.processed > b.totals.processed
    } else {
        bytes_less(a.identity.worker.as_str().as_bytes(), b.identity.worker.as_str().as_bytes())
    }
}

/// The distinct workers counted in a window, in order of first appearance.
fn collect_workers(minutes: &Vec<i64>, hashes: &Vec<Vec<(String, i64)>>, filter: Option<&MetricIdentity>)
    -> (out: Vec<MetricIdentity>)
    ensures
        forall|i: int, j: int| 0 <= i < j < out@.len() ==> out@[i].worker@ != out@[j].worker@,
        forall|i: int| 0 <= i < out@.len() ==> worker_counted(minutes@, hashes@, filter_view(filter), #[trigger] utf8(out@[i].worker@)),
        forall|w: Seq<u8>| worker_counted(minutes@, hashes@, filter_view(filter), w) ==> exists|i: int|
            0 <= i < out@.len() && #[trigger] utf8(out@[i].worker@) == w,
{
    let ghost fv = filter_view(filter);
    let mut out: Vec<MetricIdentity> = Vec::new();
    let n = if hashes.len() < minutes.len() { hashes.len() } else { minutes.len() };
    let mut idx: usize = 0;
    while idx < n
        invariant
            idx <= n,
            n <= minutes@.len(),
            n <= hashes@.len(),
            n == if hashes@.len() < minutes@.len() { hashes@.len() } else { minutes@.len() },
            fv == filter_view(filter),
            forall|i: int, j: int| 0 <= i < j < out@.len() ==> out@[i].worker@ != out@[j].worker@,
            forall|i: int| 0 <= i < out@.len() ==> worker_counted(minutes@, hashes@, fv, #[trigger] utf8(out@[i].worker@)),
            forall|w: Seq<u8>, x: int, y: int| #[trigger] entry_counts_for(minutes@, hashes@, fv, w, x, y) && x < idx ==> exists|i: int|
                0 <= i < out@.len() && #[trigger] utf8(out@[i].worker@) == w,
        decreases n - idx,
    {
        let hash = &hashes[idx];
        let mut j: usize = 0;
        while j < hash.len()
            invariant
                idx < n,
                n <= minutes@.len(),
                n <= hashes@.len(),
                j <= hash@.len(),
                *hash == hashes@[idx as int],
                fv == filter_view(filter),
                forall|i: int, k: int| 0 <= i < k < out@.len() ==> out@[i].worker@ != out@[k].worker@,
                forall|i: int| 0 <= i < out@.len() ==> worker_counted(minutes@, hashes@, fv, #[trigger] utf8(out@[i].worker@)),
                forall|w: Seq<u8>, x: int, y: int| #[trigger] entry_counts_for(minutes@, hashes@, fv, w, x, y) && (x < idx || (x == idx && y < j)) ==> exists|i: int|
                    0 <= i < out@.len() && #[trigger] utf8(out@[i].worker@) == w,
            decreases hash@.len() - j,
        {
            match entry_counter_exec(&hash[j], filter) {
                None => {},
                Some((id, _m)) => {
                    let ghost w = utf8(id.worker@);
                    assert(entry_counts_for(minutes@, hashes@, fv, w, idx as int, j as int));
                    let mut found = false;
                    let mut k: usize = 0;
                    while k < out.len()
                        invariant
                            k <= out@.len(),
                            !found ==> forall|i: int| 0 <= i < k ==> out@[i].worker@ != id.worker@,
                            found ==> exists|i: int| 0 <= i < out@.len() && out@[i].worker@ == id.worker@,
                        decreases out@.len() - k,
                    {
                        if crate::text::str_eq(out[k].worker.as_str(), id.worker.as_str()) {
                            found = true;
                        }
                        k = k + 1;
                    }
                    if found {
                        let ghost i = choose|i: int| 0 <= i < out@.len() && out@[i].worker@ == id.worker@;
                        assert(utf8(out@[i].worker@) == w);
                    } else {
                        let ghost before = out@;
                        out.push(id);
                        assert(utf8(out@[before.len() as int].worker@) == w);
                        assert forall|i: int| 0 <= i < out@.len() implies worker_counted(minutes@, hashes@, fv, #[trigger] utf8(out@[i].worker@)) by {
                            if i < before.len() {
                                assert(out@[i] == before[i]);
                            } else {
                                assert(entry_counts_for(minutes@, hashes@, fv, w, idx as int, j as int));
                            }
                        }
                        assert forall|v: Seq<u8>, x: int, y: int| #[trigger] entry_counts_for(minutes@, hashes@, fv, v, x, y) && (x < idx || (x == idx && y < j)) implies exists|i: int|
                            0 <= i < out@.len() && #[trigger] utf8(out@[i].worker@) == v by {
                            let i = choose|i: int| 0 <= i < before.len() && #[trigger] utf8(before[i].worker@) == v;
                            assert(out@[i] == before[i]);
                        }
                    }
                },
            }
            proof {
                assert forall|v: Seq<u8>, x: int, y: int| #[trigger] entry_counts_for(minutes@, hashes@, fv, v, x, y) && (x < idx || (x == idx && y < j + 1)) implies exists|i: int|
                    0 <= i < out@.len() && #[trigger] utf8(out@[i].worker@) == v by {
                    if x == idx && y == j {
                    }
                }
            }
            j = j + 1;
        }
        idx = idx + 1;
    }
    proof {
        assert forall|w: Seq<u8>| worker_counted(minutes@, hashes@, fv, w) implies exists|i: int|
            0 <= i < out@.len() && #[trigger] utf8(out@[i].worker@) == w by {
            let (x, y) = choose|x: int, y: int| entry_counts_for(minutes@, hashes@, fv, w, x, y);
            assert(entry_counts_for(minutes@, hashes@, fv, w, x, y));
        }
    }
    out
}

/// Orders worker summaries by `summary_before`, keeping every summary.
#[verifier::rlimit(40)]
fn sort_summaries(v: Vec<WorkerMetricsSummary>) -> (out: Vec<WorkerMetricsSummary>)
    requires
        forall|i: int, j: int| 0 <= i < j < v@.len() ==> v@[i].identity.worker@ != v@[j].identity.worker@,
    ensures
        out@.to_multiset() == v@.to_multiset(),
        forall|i: int, j: int| 0 <= i < j < out@.len() ==> out@[i].identity.worker@ != out@[j].identity.worker@,
        forall|i: int, j: int| 0 <= i < j < out@.len() ==> !summary_before(out@[j], out@[i]),
{
    broadcast use vstd::seq_lib::group_to_multiset_ensures;

    let ghost orig = v@;
    let mut remaining = v;
    let mut out: Vec<WorkerMetricsSummary> = Vec::new();
    assert(out@.to_multiset().add(remaining@.to_multiset()) =~= orig.to_multiset());
    while remaining.len() > 0
        invariant
            out@.to_multiset().add(remaining@.to_multiset()) == orig.to_multiset(),
            forall|i: int, j: int| 0 <= i < j < out@.len() ==> out@[i].identity.worker@ != out@[j].identity.worker@,
            forall|i: int, j: int| 0 <= i < out@.len() && 0 <= j < remaining@.len() ==> out@[i].identity.worker@ != remaining@[j].identity.worker@,
            forall|i: int, j: int| 0 <= i < j < remaining@.len() ==> remaining@[i].identity.worker@ != remaining@[j].identity.worker@,
            forall|i: int, j: int| 0 <= i < j < out@.len() ==> !summary_before(out@[j], out@[i]),
            forall|i: int, j: int| 0 <= i < out@.len() && 0 <= j < remaining@.len() ==> !summary_before(remaining@[j], out@[i]),
        decreases remaining@.len(),
    {
        let mut best: usize = 0;
        let mut k: usize = 1;
        while k < remaining.len()
            invariant
                1 <= k <= remaining@.len(),
                best < remaining@.len(),
                forall|j: int| 0 <= j < k ==> !summary_before(remaining@[j], remaining@[best as int]),
            decreases remaining@.len() - k,
        {
            if summary_before_exec(&remaining[k], &remaining[best]) {
                proof {
                    assert forall|j: int| 0 <= j < k implies !summary_before(remaining@[j], remaining@[k as int]) by {
                        if summary_before(remaining@[j], remaining@[k as int]) {
                            lemma_summary_before_transitive(remaining@[j], remaining@[k as int], remaining@[best as int]);
                        }
                    }
                    assert(!summary_before(remaining@[k as int], remaining@[k as int])) by {
                        crate::text::lemma_bytes_lt_irreflexive(utf8(remaining@[k as int].identity.worker@));
                    }
                }
                best = k;
            }
            k = k + 1;
        }
        let ghost rem_before = remaining@;
        let ghost out_before = out@;
        let x = remaining.remove(best);
        out.push(x);
        proof {
            let b = best as int;
            let nb = out_before.len() as int;
            assert(remaining@ =~= rem_before.remove(b));
            assert(out@ =~= out_before.push(rem_before[b]));
            assert(out@.to_multiset().add(remaining@.to_multiset()) =~= orig.to_multiset()) by {
                vstd::seq_lib::to_multiset_remove(rem_before, b);
                assert(rem_before.contains(rem_before[b]));
                vstd::seq_lib::to_multiset_contains(rem_before, rem_before[b]);
                vstd::seq_lib::to_multiset_build(out_before, rem_before[b]);
            }
            assert forall|i: int, j: int| 0 <= i < j < out@.len() implies out@[i].identity.worker@ != out@[j].identity.worker@
                && !summary_before(out@[j], out@[i]) by {
                if j == nb {
                    assert(out@[i] == out_before[i]);
                    assert(out@[j] == rem_before[b]);
                } else {
                    assert(out@[i] == out_before[i]);
                    assert(out@[j] == out_before[j]);
                }
            }
            assert forall|i: int, j: int| 0 <= i < out@.len() && 0 <= j < remaining@.len() implies out@[i].identity.worker@ != remaining@[j].identity.worker@
                && !summary_before(remaining@[j], out@[i]) by {
                let jj = if j < b { j } else { j + 1 };
                assert(remaining@[j] == rem_before[jj]);
                if i < nb {
                    assert(out@[i] == out_before[i]);
                } else {
                    assert(out@[i] == rem_before[b]);
                }
            }
            assert forall|i: int, j: int| 0 <= i < j < remaining@.len() implies remaining@[i].identity.worker@ != remaining@[j].identity.worker@ by {
                let ii = if i < b { i } else { i + 1 };
                let jj = if j < b { j } else { j + 1 };
                assert(remaining@[i] == rem_before[ii]);
                assert(remaining@[j] == rem_before[jj]);
            }
        }
    }
    assert(remaining@.to_multiset() =~= vstd::multiset::Multiset::<WorkerMetricsSummary>::empty());
    assert(out@.to_multiset() =~= out@.to_multiset().add(remaining@.to_multiset()));
    out
}

proof fn lemma_sorted_summaries(
    minutes: Seq<i64>,
    hashes: Seq<Vec<(String, i64)>>,
    fv: Option<Seq<char>>,
    ids: Seq<MetricIdentity>,
    unsorted: Seq<WorkerMetricsSummary>,
    workers: Seq<WorkerMetricsSummary>,
)
    requires
        unsorted.len() == ids.len(),
        forall|i: int| 0 <= i < ids.len() ==> #[trigger] unsorted[i].identity.worker@ == ids[i].worker@,
        forall|i: int| 0 <= i < ids.len() ==> summary_matches(#[trigger] unsorted[i], minutes, hashes),
        forall|i: int| 0 <= i < ids.len() ==> worker_counted(minutes, hashes, fv, #[trigger] utf8(ids[i].worker@)),
        forall|w: Seq<u8>| worker_counted(minutes, hashes, fv, w) ==> exists|i: int|
            0 <= i < ids.len() && #[trigger] utf8(ids[i].worker@) == w,
        workers.to_multiset() == unsorted.to_multiset(),
    ensures
        forall|i: int| 0 <= i < workers.len() ==> summary_matches(#[trigger] workers[i], minutes, hashes),
        forall|i: int| 0 <= i < workers.len() ==> worker_counted(minutes, hashes, fv, #[trigger] utf8(workers[i].identity.worker@)),
        forall|w: Seq<u8>| worker_counted(minutes, hashes, fv, w) ==> exists|i: int|
            0 <= i < workers.len() && #[trigger] utf8(workers[i].identity.worker@) == w,
{
        assert forall|i: int| 0 <= i < workers.len() implies summary_matches(#[trigger] workers[i], minutes, hashes)
            && worker_counted(minutes, hashes, fv, utf8(workers[i].identity.worker@)) by {
            assert(unsorted.contains(workers[i])) by {
                vstd::seq_lib::to_multiset_contains(workers, workers[i]);
                vstd::seq_lib::to_multiset_contains(unsorted, workers[i]);
            }
            let j = choose|j: int| 0 <= j < unsorted.len() && unsorted[j] == workers[i];
            assert(unsorted[j].identity.worker@ == ids[j].worker@);
            assert(worker_counted(minutes, hashes, fv, utf8(ids[j].worker@)));
        }
        assert forall|w: Seq<u8>| worker_counted(minutes, hashes, fv, w) implies exists|i: int|
            0 <= i < workers.len() && #[trigger] utf8(workers[i].identity.worker@) == w by {
            let j = choose|j: int| 0 <= j < ids.len() && #[trigger] utf8(ids[j].worker@) == w;
            assert(unsorted[j].identity.worker@ == ids[j].worker@);
            assert(workers.contains(unsorted[j])) by {
                vstd::seq_lib::to_multiset_contains(workers, unsorted[j]);
                vstd::seq_lib::to_multiset_contains(unsorted, unsorted[j]);
            }
            let i = choose|i: int| 0 <= i < workers.len() && workers[i] == unsorted[j];
            assert(utf8(workers[i].identity.worker@) == w);
        }
    }

/// Aggregates the counter hashes of a window (one hash per minute, oldest
/// first): overall totals and per-minute buckets, and one summary per
/// counted worker, most execution time first. With a filter only that
/// worker's counters are taken.
pub fn aggregate_counter_hashes(minutes: &Vec<i64>, hashes: &Vec<Vec<(String, i64)>>, filter: Option<&MetricIdentity>)
    -> (r: JobMetricsAggregation)
    requires
        minutes_fit(minutes@),
    ensures
        r.totals == window_totals(minutes@, hashes@, filter_view(filter)),
        r.series@.len() == minutes@.len(),
        forall|i: int| 0 <= i < minutes@.len() ==> #[trigger] r.series@[i] == series_point(
            minutes@,
            hashes@,
            i,
            filter_view(filter),
        ),
        forall|i: int| 0 <= i < r.workers@.len() ==> summary_matches(#[trigger] r.workers@[i], minutes@, hashes@),
        forall|i: int| 0 <= i < r.workers@.len() ==> worker_counted(minutes@, hashes@, filter_view(filter), #[trigger] utf8(r.workers@[i].identity.worker@)),
        forall|w: Seq<u8>| worker_counted(minutes@, hashes@, filter_view(filter), w) ==> exists|i: int|
            0 <= i < r.workers@.len() && #[trigger] utf8(r.workers@[i].identity.worker@) == w,
        forall|i: int, j: int| 0 <= i < j < r.workers@.len() ==> r.workers@[i].identity.worker@ != r.workers@[j].identity.worker@,
        forall|i: int, j: int| 0 <= i < j < r.workers@.len() ==> !summary_before(r.workers@[j], r.workers@[i]),
{
    let (totals, series) = aggregate_series(minutes, hashes, filter);
    let ids = collect_workers(minutes, hashes, filter);
    let ghost fv = filter_view(filter);
    let mut summaries: Vec<WorkerMetricsSummary> = Vec::new();
    let mut k: usize = 0;
    while k < ids.len()
        invariant
            k <= ids@.len(),
            minutes_fit(minutes@),
            summaries@.len() == k,
            forall|i: int| 0 <= i < k ==> #[trigger] summaries@[i].identity.worker@ == ids@[i].worker@,
            forall|i: int| 0 <= i < k ==> summary_matches(#[trigger] summaries@[i], minutes@, hashes@),
        decreases ids@.len() - k,
    {
        let id = ids[k].clone();
        assert(id.worker@ == ids@[k as int].worker@);
        let (wt, ws) = aggregate_series(minutes, hashes, Some(&id));
        let ghost before = summaries@;
        summaries.push(WorkerMetricsSummary { identity: id, totals: wt, series: ws });
        proof {
            assert(summaries@ == before.push(summaries@[k as int]));
            assert forall|i: int| 0 <= i <= k implies #[trigger] summaries@[i].identity.worker@ == ids@[i].worker@ by {
                if i < k {
                    assert(summaries@[i] == before[i]);
                }
            }
        }
        k = k + 1;
    }
    let ghost unsorted = summaries@;
    assert forall|i: int, j: int| 0 <= i < j < unsorted.len() implies unsorted[i].identity.worker@ != unsorted[j].identity.worker@ by {
        assert(unsorted[i].identity.worker@ == ids@[i].worker@);
        assert(unsorted[j].identity.worker@ == ids@[j].worker@);
    }
    let workers = sort_summaries(summaries);
    proof {
        lemma_sorted_summaries(minutes@, hashes@, fv, ids@, unsorted, workers@);
    }
    let r = JobMetricsAggregation { totals, series, workers };
    proof {
        assert forall|w: Seq<u8>| worker_counted(minutes@, hashes@, filter_view(filter), w) implies exists|i: int|
            0 <= i < r.workers@.len() && #[trigger] utf8(r.workers@[i].identity.worker@) == w by {
            assert(worker_counted(minutes@, hashes@, fv, w));
            let i = choose|i: int| 0 <= i < r.workers@.len() && #[trigger] utf8(r.workers@[i].identity.worker@) == w;
            assert(utf8(r.workers@[i].identity.worker@) == w);
        }
    }
    r
}

/// Metrics of all workers over a window.
#[derive(Debug)]
pub struct JobMetricsSnapshot {
    /// Inclusive start timestamp for the queried window.
    pub starts_at: i64,
    /// Inclusive end timestamp for the queried window.
    pub ends_at: i64,
    /// Number of minute buckets returned.
    pub minutes: usize,
    /// Totals across all workers in the queried window.
    pub totals: JobMetricsTotals,
    /// Per-minute totals across all workers in the queried window.
    pub series: Vec<JobMetricsPoint>,
    /// Per-worker summaries sorted by total execution time descending.
    pub workers: Vec<WorkerMetricsSummary>,
}

/// Metrics of one worker over a window.
#[derive(Debug)]
pub struct JobMetricsDetail {
    /// Worker these metrics belong to.
    pub identity: MetricIdentity,
    /// Inclusive start timestamp for the queried window.
    pub starts_at: i64,
    /// Inclusive end timestamp for the queried window.
    pub ends_at: i64,
    /// Number of minute buckets returned.
    pub minutes: usize,
    /// Totals for this worker in the queried window.
    pub totals: JobMetricsTotals,
    /// Per-minute points for this worker in the queried window.
    pub series: Vec<JobMetricsPoint>,
    /// Execution-time histogram for successful worker executions.
    pub histogram: Vec<JobMetricsHistogramBucket>,
}

/// Start timestamp of the first minute of a window, or zero for an empty
/// window.
pub open spec fn window_start(minutes: Seq<i64>) -> i64 {
    if minutes.len() == 0 { 0 } else { (minutes[0] * 60) as i64 }
}

/// Start timestamp of the last minute of a window, or zero for an empty
/// window.
pub open spec fn window_end(minutes: Seq<i64>) -> i64 {
    if minutes.len() == 0 { 0 } else { (minutes.last() * 60) as i64 }
}

fn window_bounds(minutes: &Vec<i64>) -> (r: (i64, i64))
    requires
        minutes_fit(minutes@),
    ensures
        r == (window_start(minutes@), window_end(minutes@)),
{
    if minutes.len() == 0 {
        (0, 0)
    } else {
        assert(i64::MIN <= minutes@[0] * 60 <= i64::MAX);
        assert(i64::MIN <= minutes@[minutes@.len() - 1] * 60 <= i64::MAX);
        (minutes[0] * 60, minutes[minutes.len() - 1] * 60)
    }
}

/// The snapshot of a window from its aggregation.
pub fn job_metrics_snapshot(minutes: &Vec<i64>, aggregation: JobMetricsAggregation) -> (s: JobMetricsSnapshot)
    requires
        minutes_fit(minutes@),
    ensures
        s.starts_at == window_start(minutes@),
        s.ends_at == window_end(minutes@),
        s.minutes == minutes@.len(),
        s.totals == aggregation.totals,
        s.series == aggregation.series,
        s.workers == aggregation.workers,
{
    let (starts_at, ends_at) = window_bounds(minutes);
    JobMetricsSnapshot {
        starts_at,
        ends_at,
        minutes: minutes.len(),
        totals: aggregation.totals,
        series: aggregation.series,
        workers: aggregation.workers,
    }
}

/// The detail of one worker's window from its aggregation and histogram.
pub fn job_metrics_detail(
    identity: MetricIdentity,
    minutes: &Vec<i64>,
    aggregation: JobMetricsAggregation,
    histogram: &[u64; HISTOGRAM_BUCKET_COUNT],
) -> (d: JobMetricsDetail)
    requires
        minutes_fit(minutes@),
    ensures
        d.identity == identity,
        d.starts_at == window_start(minutes@),
        d.ends_at == window_end(minutes@),
        d.minutes == minutes@.len(),
        d.totals == aggregation.totals,
        d.series == aggregation.series,
        d.histogram@.len() == HISTOGRAM_BUCKET_COUNT,
        forall|i: int| #![trigger d.histogram@[i]] 0 <= i < 14 ==> {
            &&& d.histogram@[i].label@ == histogram_label(i)
            &&& d.histogram@[i].count == histogram@[i]
            &&& d.histogram@[i].upper_bound_ms == if i < 13 { Some(histogram_bound(i)) } else { None }
        },
{
    let (starts_at, ends_at) = window_bounds(minutes);
    JobMetricsDetail {
        identity,
        starts_at,
        ends_at,
        minutes: minutes.len(),
        totals: aggregation.totals,
        series: aggregation.series,
        histogram: histogram_buckets_from_counts(histogram),
    }
}

} // verus!
