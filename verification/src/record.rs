use vstd::prelude::*;

verus! {

/// A timestamp with second resolution and an explicit UTC offset, as carried
/// by one log line. Equality and ordering go by the absolute instant
/// (`epoch_seconds`) alone; the offset is kept only so that the wall-clock
/// rendering from the source text can be reconstructed.
#[derive(Clone, Copy, Debug)]
pub struct Timestamp {
    pub epoch_seconds: i64,
    pub offset_seconds: i32,
}

impl Timestamp {
    pub fn new(epoch_seconds: i64, offset_seconds: i32) -> (r: Timestamp)
        ensures
            r.epoch_seconds == epoch_seconds,
            r.offset_seconds == offset_seconds,
    {
        Timestamp { epoch_seconds, offset_seconds }
    }
}

impl PartialEq for Timestamp {
    /// Two timestamps are equal when they denote the same absolute instant,
    /// whatever textual offset each came with.
    fn eq(&self, other: &Timestamp) -> (r: bool) {
        self.epoch_seconds == other.epoch_seconds
    }
}

impl vstd::std_specs::cmp::PartialEqSpecImpl for Timestamp {
    open spec fn obeys_eq_spec() -> bool {
        true
    }

    open spec fn eq_spec(&self, other: &Timestamp) -> bool {
        self.epoch_seconds == other.epoch_seconds
    }
}

/// The mathematical content of one parsed log line: every field as a plain
/// mathematical value. Contracts throughout the crate speak of this model.
pub ghost struct RecordModel {
    pub client_ip: Seq<char>,
    pub epoch_seconds: int,
    pub offset_seconds: int,
    pub request: Seq<char>,
    pub status_code: int,
    pub size: int,
}

/// One parsed log line: the client address, the instant of the request, the
/// raw request line, the response status and the number of bytes returned.
#[derive(Debug)]
pub struct ApacheLogEntry {
    pub client_ip: String,
    pub timestamp: Timestamp,
    pub request: String,
    pub status_code: u8,
    pub size: u32,
}

impl View for ApacheLogEntry {
    type V = RecordModel;

    open spec fn view(&self) -> RecordModel {
        RecordModel {
            client_ip: self.client_ip@,
            epoch_seconds: self.timestamp.epoch_seconds as int,
            offset_seconds: self.timestamp.offset_seconds as int,
            request: self.request@,
            status_code: self.status_code as int,
            size: self.size as int,
        }
    }
}

/// Structural equality of records. The timestamp enters through its absolute
/// instant only: two records equal in all else whose instants agree compare
/// equal even when their textual offsets differ.
pub open spec fn model_eq(x: RecordModel, y: RecordModel) -> bool {
    &&& x.client_ip == y.client_ip
    &&& x.epoch_seconds == y.epoch_seconds
    &&& x.request == y.request
    &&& x.status_code == y.status_code
    &&& x.size == y.size
}

/// Strict lexicographic order on character sequences, by code point.
pub open spec fn lex_lt(a: Seq<char>, b: Seq<char>) -> bool
    decreases a.len(),
{
    if b.len() == 0 {
        false
    } else if a.len() == 0 {
        true
    } else if a[0] as u32 != b[0] as u32 {
        (a[0] as u32) < (b[0] as u32)
    } else {
        lex_lt(a.drop_first(), b.drop_first())
    }
}

/// The total order on records: by instant ascending, ties broken
/// structurally over the remaining fields in declared order.
pub open spec fn model_le(x: RecordModel, y: RecordModel) -> bool {
    if x.epoch_seconds != y.epoch_seconds {
        x.epoch_seconds < y.epoch_seconds
    } else if x.client_ip != y.client_ip {
        lex_lt(x.client_ip, y.client_ip)
    } else if x.request != y.request {
        lex_lt(x.request, y.request)
    } else if x.status_code != y.status_code {
        x.status_code < y.status_code
    } else {
        x.size <= y.size
    }
}

pub open spec fn model_lt(x: RecordModel, y: RecordModel) -> bool {
    model_le(x, y) && !model_eq(x, y)
}

impl PartialEq for ApacheLogEntry {
    /// Structural equality over all five fields, the timestamp compared on
    /// its absolute instant.
    fn eq(&self, other: &ApacheLogEntry) -> (r: bool) {
        self.timestamp.epoch_seconds == other.timestamp.epoch_seconds
            && self.client_ip == other.client_ip && self.request == other.request
            && self.status_code == other.status_code && self.size == other.size
    }
}

impl vstd::std_specs::cmp::PartialEqSpecImpl for ApacheLogEntry {
    open spec fn obeys_eq_spec() -> bool {
        true
    }

    open spec fn eq_spec(&self, other: &ApacheLogEntry) -> bool {
        model_eq(self@, other@)
    }
}

/// Two characters with the same code point are the same character.
proof fn lemma_char_cast_injective(c1: char, c2: char)
    requires
        c1 as u32 == c2 as u32,
    ensures
        c1 == c2,
{
    vstd::utf8::char_u32_cast(c1, c1 as u32);
    vstd::utf8::char_u32_cast(c2, c2 as u32);
}

proof fn lemma_lex_lt_trichotomy(a: Seq<char>, b: Seq<char>)
    ensures
        lex_lt(a, b) || lex_lt(b, a) || a == b,
    decreases a.len(),
{
    if a.len() == 0 && b.len() == 0 {
        assert(a =~= b);
    } else if a.len() > 0 && b.len() > 0 && a[0] as u32 == b[0] as u32 {
        lemma_char_cast_injective(a[0], b[0]);
        lemma_lex_lt_trichotomy(a.drop_first(), b.drop_first());
        if a.drop_first() == b.drop_first() {
            assert(a =~= Seq::empty().push(a[0]) + a.drop_first());
            assert(b =~= Seq::empty().push(b[0]) + b.drop_first());
        }
    }
}

proof fn lemma_lex_lt_irrefl(a: Seq<char>)
    ensures
        !lex_lt(a, a),
    decreases a.len(),
{
    if a.len() > 0 {
        lemma_lex_lt_irrefl(a.drop_first());
    }
}

proof fn lemma_lex_lt_trans(a: Seq<char>, b: Seq<char>, c: Seq<char>)
    requires
        lex_lt(a, b),
        lex_lt(b, c),
    ensures
        lex_lt(a, c),
    decreases a.len(),
{
    if a.len() > 0 && b.len() > 0 && c.len() > 0 && a[0] as u32 == b[0] as u32 && b[0] as u32
        == c[0] as u32 {
        lemma_lex_lt_trans(a.drop_first(), b.drop_first(), c.drop_first());
    }
}

/// The record order is total: any two records are comparable.
pub proof fn lemma_model_le_total(x: RecordModel, y: RecordModel)
    ensures
        model_le(x, y) || model_le(y, x),
{
    lemma_lex_lt_trichotomy(x.client_ip, y.client_ip);
    lemma_lex_lt_trichotomy(x.request, y.request);
}

/// Records ordered both ways are structurally equal.
pub proof fn lemma_model_le_antisym(x: RecordModel, y: RecordModel)
    requires
        model_le(x, y),
        model_le(y, x),
    ensures
        model_eq(x, y),
{
    lemma_lex_lt_irrefl(x.client_ip);
    lemma_lex_lt_irrefl(x.request);
    lemma_lex_lt_trichotomy(x.client_ip, y.client_ip);
    lemma_lex_lt_trichotomy(x.request, y.request);
    if lex_lt(x.client_ip, y.client_ip) && lex_lt(y.client_ip, x.client_ip) {
        lemma_lex_lt_trans(x.client_ip, y.client_ip, x.client_ip);
    }
    if lex_lt(x.request, y.request) && lex_lt(y.request, x.request) {
        lemma_lex_lt_trans(x.request, y.request, x.request);
    }
}

proof fn lemma_seq_le_trans(a: Seq<char>, b: Seq<char>, c: Seq<char>)
    requires
        lex_lt(a, b) || a == b,
        lex_lt(b, c) || b == c,
    ensures
        lex_lt(a, c) || a == c,
{
    if lex_lt(a, b) && lex_lt(b, c) {
        lemma_lex_lt_trans(a, b, c);
    }
}

proof fn lemma_lex_lt_skip_common_prefix(a: Seq<char>, b: Seq<char>, i: int)
    requires
        0 <= i <= a.len(),
        i <= b.len(),
        forall|k: int| 0 <= k < i ==> a[k] == b[k],
    ensures
        lex_lt(a, b) == lex_lt(a.skip(i), b.skip(i)),
    decreases i,
{
    if i > 0 {
        assert forall|k: int| 0 <= k < i - 1 implies a.drop_first()[k] == b.drop_first()[k] by {
            assert(a[k + 1] == b[k + 1]);
        }
        lemma_lex_lt_skip_common_prefix(a.drop_first(), b.drop_first(), i - 1);
        assert(a.drop_first().skip(i - 1) =~= a.skip(i));
        assert(b.drop_first().skip(i - 1) =~= b.skip(i));
    } else {
        assert(a.skip(0) =~= a);
        assert(b.skip(0) =~= b);
    }
}

/// Decides the strict lexicographic order `lex_lt` on the characters of two
/// strings.
fn lex_lt_exec(a: &str, b: &str) -> (r: bool)
    ensures
        r == lex_lt(a@, b@),
{
    let alen = a.unicode_len();
    let blen = b.unicode_len();
    let mut i: usize = 0;
    while i < alen && i < blen
        invariant
            alen == a@.len(),
            blen == b@.len(),
            i <= alen,
            i <= blen,
            forall|k: int| 0 <= k < i ==> a@[k] == b@[k],
        decreases alen - i,
    {
        let ca = a.get_char(i);
        let cb = b.get_char(i);
        if (ca as u32) != (cb as u32) {
            proof {
                lemma_lex_lt_skip_common_prefix(a@, b@, i as int);
                assert(a@.skip(i as int)[0] == ca);
                assert(b@.skip(i as int)[0] == cb);
            }
            return (ca as u32) < (cb as u32);
        }
        proof {
            lemma_char_cast_injective(ca, cb);
        }
        i += 1;
    }
    proof {
        lemma_lex_lt_skip_common_prefix(a@, b@, i as int);
        assert(a@.skip(i as int).len() == a@.len() - i);
        assert(b@.skip(i as int).len() == b@.len() - i);
    }
    alen < blen
}

impl ApacheLogEntry {
    /// Decides the total order `model_le` used by the merged output: instant
    /// ascending, ties broken structurally over the remaining fields.
    pub fn le(&self, other: &ApacheLogEntry) -> (r: bool)
        ensures
            r == model_le(self@, other@),
    {
        if self.timestamp.epoch_seconds != other.timestamp.epoch_seconds {
            self.timestamp.epoch_seconds < other.timestamp.epoch_seconds
        } else if !(self.client_ip == other.client_ip) {
            lex_lt_exec(self.client_ip.as_str(), other.client_ip.as_str())
        } else if !(self.request == other.request) {
            lex_lt_exec(self.request.as_str(), other.request.as_str())
        } else if self.status_code != other.status_code {
            self.status_code < other.status_code
        } else {
            self.size <= other.size
        }
    }
}

/// The record order is transitive.
pub proof fn lemma_model_le_trans(x: RecordModel, y: RecordModel, z: RecordModel)
    requires
        model_le(x, y),
        model_le(y, z),
    ensures
        model_le(x, z),
{
    if x.epoch_seconds == z.epoch_seconds {
        assert(x.epoch_seconds == y.epoch_seconds && y.epoch_seconds == z.epoch_seconds);
        lemma_seq_le_trans(x.client_ip, y.client_ip, z.client_ip);
        if x.client_ip == z.client_ip {
            if x.client_ip != y.client_ip {
                lemma_lex_lt_trans(x.client_ip, y.client_ip, z.client_ip);
                lemma_lex_lt_irrefl(x.client_ip);
            }
            lemma_seq_le_trans(x.request, y.request, z.request);
            if x.request == z.request && x.request != y.request {
                lemma_lex_lt_trans(x.request, y.request, z.request);
                lemma_lex_lt_irrefl(x.request);
            }
        }
    }
}

} // verus!
