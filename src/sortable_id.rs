//! Sortable unique ids: thirty ASCII digits, nineteen of zero-padded ticks
//! (units of 100 ns since 0001-01-01T00:00:00Z) followed by eleven of
//! zero-padded entropy taken from a UUID. Plain string order on such ids
//! follows their ticks.

use vstd::prelude::*;
use vstd::arithmetic::div_mod::lemma_fundamental_div_mod_converse;
use crate::clock::UtcTime;
use crate::digits::{
    all_digits, decimal_padded, decimal_value, is_digit, lemma_decimal_padded_order,
    lemma_decimal_padded_shape, lemma_decimal_padded_value, lemma_decimal_value_padded, lemma_lex_lt_asymmetric,
    lemma_lex_lt_concat, lemma_lex_lt_irreflexive, lemma_lex_lt_total, lex_le, lex_lt,
    padded_decimal, pow10,
};
use crate::entropy::{lemma_reverse_bytes_zero, random_uuid, reverse_bytes, uuid_value_le, NIL_UUID};
use crate::error::EventSourcingError;

verus! {

/// Digits of ticks at the start of an id.
pub const TICK_NUMBER_OF_LENGTH: usize = 19;

/// Digits of entropy at the end of an id.
pub const ID_NUMBER_OF_LENGTH: usize = 11;

/// Characters in an id.
pub const SORTABLE_ID_LENGTH: usize = 30;

/// How far a safe id lies behind the instant it is taken at, in milliseconds.
pub const SAFE_MILLISECONDS: i64 = 5000;

/// The same margin in ticks.
pub const SAFE_TICKS: u64 = 50_000_000;

/// Ticks in one second.
pub const TICKS_PER_SECOND: u64 = 10_000_000;

/// Ticks from 0001-01-01T00:00:00Z to the Unix epoch.
pub const TICKS_FROM_UNIX_TO_CSHARP: u64 = 621_355_968_000_000_000;

/// The entropy field holds the absolute value modulo this.
pub const ENTROPY_MODULUS: u64 = 100_000_000_000;

/// The last second after the Unix epoch whose ticks fit in nineteen digits.
pub const MAX_UNIX_SECONDS: i64 = 937_864_403_199;

/// The first second of 0001-01-01, the start of the tick count, in Unix seconds.
pub const MIN_UNIX_SECONDS: i64 = -62_135_596_800;

/// Whether `t` lies between 0001-01-01 and the last instant whose ticks fit
/// in the tick field.
pub open spec fn in_id_range(t: UtcTime) -> bool {
    t.wf() && MIN_UNIX_SECONDS <= t.unix_seconds <= MAX_UNIX_SECONDS
}

/// The ticks of an instant: units of 100 ns since 0001-01-01T00:00:00Z.
pub open spec fn ticks_of_time(t: UtcTime) -> nat {
    (t.unix_seconds * TICKS_PER_SECOND + t.subsec_nanos / 100 + TICKS_FROM_UNIX_TO_CSHARP) as nat
}

/// The instant that a tick count denotes.
pub open spec fn time_of_ticks(ticks: nat) -> UtcTime {
    let since_unix = ticks - TICKS_FROM_UNIX_TO_CSHARP;
    UtcTime {
        unix_seconds: (since_unix / (TICKS_PER_SECOND as int)) as i64,
        subsec_nanos: ((since_unix % (TICKS_PER_SECOND as int)) * 100) as u32,
    }
}

/// The entropy of a 128-bit little-endian UUID value: the absolute value of its
/// low 64 bits read as a signed number, modulo ten to the eleventh.
pub open spec fn entropy_of_le(le: u128) -> nat {
    let h = le as i64;
    (if h < 0 {
        -h
    } else {
        h as int
    }) as nat % (ENTROPY_MODULUS as nat)
}

/// The entropy that the UUID with big-endian value `id` contributes.
pub open spec fn entropy_of(id: u128) -> nat {
    entropy_of_le(reverse_bytes(id as nat, 16) as u128)
}

/// The text of the id with these ticks and this entropy.
pub open spec fn id_text(ticks: nat, entropy: nat) -> Seq<char> {
    decimal_padded(ticks, 19) + decimal_padded(entropy, 11)
}

/// Whether `s` has the layout of an id: thirty ASCII digits.
pub open spec fn is_sortable_id_text(s: Seq<char>) -> bool {
    s.len() == 30 && all_digits(s)
}

/// The ticks that the first nineteen digits of an id denote.
pub open spec fn ticks_of_text(s: Seq<char>) -> nat {
    decimal_value(s.subrange(0, 19))
}

/// A last id that is neither empty nor thirty ASCII digits: no id can be
/// made to follow it.
pub open spec fn malformed_last_id(s: Seq<char>) -> bool {
    s.len() > 0 && !is_sortable_id_text(s)
}

/// The ticks of a safe id: the margin earlier, but never before 0001-01-01.
pub open spec fn safe_ticks(ticks: nat) -> nat {
    if ticks >= SAFE_TICKS {
        (ticks - SAFE_TICKS) as nat
    } else {
        0
    }
}

proof fn lemma_nil_entropy()
    ensures
        entropy_of(NIL_UUID) == 0,
{
    lemma_reverse_bytes_zero(16);
    assert((0u128 as i64) == 0) by (bit_vector);
}

proof fn lemma_id_text_shape(ticks: nat, entropy: nat)
    ensures
        is_sortable_id_text(id_text(ticks, entropy)),
        id_text(ticks, entropy).subrange(0, 19) == decimal_padded(ticks, 19),
{
    lemma_decimal_padded_shape(ticks, 19);
    lemma_decimal_padded_shape(entropy, 11);
    let s = id_text(ticks, entropy);
    assert forall|i: int| 0 <= i < s.len() implies is_digit(#[trigger] s[i]) by {
        if i < 19 {
            assert(s[i] == decimal_padded(ticks, 19)[i]);
        } else {
            assert(s[i] == decimal_padded(entropy, 11)[i - 19]);
        }
    }
    assert(s.subrange(0, 19) =~= decimal_padded(ticks, 19));
}

proof fn lemma_pow10_19()
    ensures
        pow10(19) == 10_000_000_000_000_000_000,
{
    reveal_with_fuel(pow10, 20);
}

/// Later instants never have fewer ticks.
pub proof fn lemma_ticks_monotone(t1: UtcTime, t2: UtcTime)
    requires
        in_id_range(t1),
        in_id_range(t2),
        t1.total_nanos() <= t2.total_nanos(),
    ensures
        ticks_of_time(t1) <= ticks_of_time(t2),
{
    let (s1, n1, s2, n2) = (t1.unix_seconds as int, t1.subsec_nanos as int, t2.unix_seconds as int, t2.subsec_nanos as int);
    lemma_ticks_in_range(t1);
    lemma_ticks_in_range(t2);
    assert(s2 >= s1) by (nonlinear_arith)
        requires
            s1 * 1_000_000_000 + n1 <= s2 * 1_000_000_000 + n2,
            0 <= n1 < 1_000_000_000,
            0 <= n2 < 1_000_000_000,
    ;
    if s1 < s2 {
        assert(s1 * 10_000_000 + n1 / 100 < s2 * 10_000_000) by (nonlinear_arith)
            requires
                s1 < s2,
                0 <= n1 < 1_000_000_000,
        ;
    } else {
        assert(n1 <= n2);
        assert(n1 / 100 <= n2 / 100) by (nonlinear_arith)
            requires
                0 <= n1 <= n2,
        ;
    }
}

/// Ids generated at instants `t1 <= t2` compare as their instants do: the
/// earlier one sorts first whenever the ticks differ, and where the ticks are
/// the same the entropy digits decide (a tie-break that need not follow time).
pub proof fn lemma_generated_ids_follow_time(t1: UtcTime, t2: UtcTime, id1: u128, id2: u128)
    requires
        in_id_range(t1),
        in_id_range(t2),
        t1.total_nanos() <= t2.total_nanos(),
    ensures
        ticks_of_time(t1) <= ticks_of_time(t2),
        ticks_of_time(t1) < ticks_of_time(t2) ==> lex_lt(
            id_text(ticks_of_time(t1), entropy_of(id1)),
            id_text(ticks_of_time(t2), entropy_of(id2)),
        ),
        ticks_of_time(t1) == ticks_of_time(t2) ==> (lex_lt(
            id_text(ticks_of_time(t1), entropy_of(id1)),
            id_text(ticks_of_time(t2), entropy_of(id2)),
        ) <==> entropy_of(id1) < entropy_of(id2)),
{
    let (k1, k2) = (ticks_of_time(t1), ticks_of_time(t2));
    let (e1, e2) = (entropy_of(id1), entropy_of(id2));
    lemma_ticks_monotone(t1, t2);
    lemma_ticks_in_range(t1);
    lemma_ticks_in_range(t2);
    lemma_decimal_padded_shape(k1, 19);
    lemma_decimal_padded_shape(k2, 19);
    if k1 < k2 {
        lemma_decimal_padded_order(k1, k2, 19);
    }
    lemma_lex_lt_concat(
        decimal_padded(k1, 19),
        decimal_padded(e1, 11),
        decimal_padded(k2, 19),
        decimal_padded(e2, 11),
    );
    lemma_entropy_in_range(id1);
    lemma_entropy_in_range(id2);
    lemma_decimal_padded_shape(e1, 11);
    lemma_decimal_padded_shape(e2, 11);
    if e1 < e2 {
        lemma_decimal_padded_order(e1, e2, 11);
    } else if e2 < e1 {
        lemma_decimal_padded_order(e2, e1, 11);
        lemma_lex_lt_asymmetric(decimal_padded(e2, 11), decimal_padded(e1, 11));
    } else {
        lemma_lex_lt_irreflexive(decimal_padded(e1, 11));
    }
}

/// The ticks read back from a generated id are the ticks it was generated
/// with, and the instant they denote is the generating instant to the tick.
pub proof fn lemma_generated_id_ticks_round_trip(t: UtcTime, id: u128)
    requires
        in_id_range(t),
    ensures
        ticks_of_text(id_text(ticks_of_time(t), entropy_of(id))) == ticks_of_time(t),
        time_of_ticks(ticks_of_time(t)) == (UtcTime {
            unix_seconds: t.unix_seconds,
            subsec_nanos: ((t.subsec_nanos / 100) * 100) as u32,
        }),
{
    lemma_ticks_in_range(t);
    lemma_id_text_shape(ticks_of_time(t), entropy_of(id));
    lemma_decimal_padded_value(ticks_of_time(t), 19);
    let since = t.unix_seconds * 10_000_000 + t.subsec_nanos / 100;
    lemma_fundamental_div_mod_converse(since, 10_000_000, t.unix_seconds as int, (t.subsec_nanos / 100) as int);
}

proof fn lemma_ticks_in_range(t: UtcTime)
    requires
        in_id_range(t),
    ensures
        0 <= t.unix_seconds * 10_000_000 + t.subsec_nanos / 100 + 621_355_968_000_000_000,
        ticks_of_time(t) == t.unix_seconds * 10_000_000 + t.subsec_nanos / 100 + 621_355_968_000_000_000,
        ticks_of_time(t) < pow10(19),
{
    lemma_pow10_19();
    assert(-621_355_968_000_000_000 <= t.unix_seconds * 10_000_000 <= 9_378_644_031_990_000_000) by (nonlinear_arith)
        requires
            -62_135_596_800 <= t.unix_seconds <= 937_864_403_199,
    ;
}

proof fn lemma_entropy_in_range(id: u128)
    ensures
        entropy_of(id) < pow10(11),
{
    reveal_with_fuel(pow10, 12);
}

/// An identifier whose text orders events across partitions and systems.
pub struct SortableUniqueIdValue(pub String);

impl View for SortableUniqueIdValue {
    type V = Seq<char>;

    open spec fn view(&self) -> Seq<char> {
        self.0@
    }
}

/// Whether `a` comes strictly before `b` in code-point order.
pub fn text_less_than(a: &str, b: &str) -> (r: bool)
    ensures
        r == lex_lt(a@, b@),
{
    let la = a.unicode_len();
    let lb = b.unicode_len();
    let mut i: usize = 0;
    assert(a@.skip(0) =~= a@);
    assert(b@.skip(0) =~= b@);
    while i < la && i < lb
        invariant
            i <= la,
            i <= lb,
            la == a@.len(),
            lb == b@.len(),
            lex_lt(a@, b@) == lex_lt(a@.skip(i as int), b@.skip(i as int)),
        decreases la - i,
    {
        let ca = a.get_char(i);
        let cb = b.get_char(i);
        assert(a@.skip(i as int)[0] == ca);
        assert(b@.skip(i as int)[0] == cb);
        if ca != cb {
            return (ca as u32) < (cb as u32);
        }
        assert(a@.skip(i as int).drop_first() =~= a@.skip(i + 1));
        assert(b@.skip(i as int).drop_first() =~= b@.skip(i + 1));
        i += 1;
    }
    i < lb
}

/// Whether `s` is thirty ASCII digits.
fn is_sortable_text(s: &str) -> (r: bool)
    ensures
        r == is_sortable_id_text(s@),
{
    let len = s.unicode_len();
    if len != SORTABLE_ID_LENGTH {
        return false;
    }
    let mut i: usize = 0;
    while i < len
        invariant
            len == s@.len(),
            i <= len,
            forall|j: int| 0 <= j < i ==> is_digit(#[trigger] s@[j]),
        decreases len - i,
    {
        let c = s.get_char(i);
        let code = c as u32;
        if code < 48 || code > 57 {
            return false;
        }
        i += 1;
    }
    true
}

/// The number that the first `n` digits of a well-formed id denote.
fn leading_value(s: &str, n: usize) -> (r: u128)
    requires
        is_sortable_id_text(s@),
        n <= 30,
    ensures
        r as nat == decimal_value(s@.subrange(0, n as int)),
        (r as nat) < pow10(n as nat),
{
    let mut acc: u128 = 0;
    let mut i: usize = 0;
    while i < n
        invariant
            is_sortable_id_text(s@),
            i <= n <= 30,
            acc as nat == decimal_value(s@.subrange(0, i as int)),
            (acc as nat) < pow10(i as nat),
        decreases n - i,
    {
        let c = s.get_char(i);
        assert(is_digit(s@[i as int]));
        let d = (c as u32 - 48) as u128;
        proof {
            let t = s@.subrange(0, i + 1);
            assert(t.drop_last() =~= s@.subrange(0, i as int));
            assert(t.last() == c);
            lemma_pow10_30();
            assert(pow10((i + 1) as nat) == 10 * pow10(i as nat));
            assert(pow10((i + 1) as nat) <= pow10(30)) by {
                lemma_pow10_monotone((i + 1) as nat, 30);
            }
            assert(acc * 10 + d < pow10((i + 1) as nat)) by (nonlinear_arith)
                requires
                    (acc as nat) < pow10(i as nat),
                    d < 10,
                    pow10((i + 1) as nat) == 10 * pow10(i as nat),
            ;
        }
        acc = acc * 10 + d;
        i += 1;
    }
    acc
}

/// The ticks that the first nineteen digits of a well-formed id denote.
fn leading_ticks(s: &str) -> (r: u64)
    requires
        is_sortable_id_text(s@),
    ensures
        r as nat == ticks_of_text(s@),
        (r as nat) < pow10(19),
{
    proof {
        lemma_pow10_19();
    }
    leading_value(s, TICK_NUMBER_OF_LENGTH) as u64
}

proof fn lemma_pow10_30()
    ensures
        pow10(30) == 1_000_000_000_000_000_000_000_000_000_000,
{
    reveal_with_fuel(pow10, 31);
}

/// The thirty-digit text just after `s`: its value plus one.
pub open spec fn successor_text(s: Seq<char>) -> Seq<char> {
    decimal_padded(decimal_value(s) + 1, 30)
}

proof fn lemma_lex_le_is_not_gt(a: Seq<char>, b: Seq<char>)
    ensures
        lex_le(a, b) == !lex_lt(b, a),
{
    lemma_lex_lt_irreflexive(a);
    lemma_lex_lt_asymmetric(a, b);
    if a != b {
        lemma_lex_lt_total(a, b);
    }
}

proof fn lemma_pow10_monotone(a: nat, b: nat)
    requires
        a <= b,
    ensures
        pow10(a) <= pow10(b),
    decreases b,
{
    if a < b {
        lemma_pow10_monotone(a, (b - 1) as nat);
    }
}

impl From<SortableUniqueIdValue> for String {
    fn from(suid: SortableUniqueIdValue) -> (r: String) {
        suid.0
    }
}

impl vstd::std_specs::convert::FromSpecImpl<SortableUniqueIdValue> for String {
    open spec fn obeys_from_spec() -> bool {
        true
    }

    open spec fn from_spec(suid: SortableUniqueIdValue) -> String {
        suid.0
    }
}

impl SortableUniqueIdValue {
    /// Reads `value` as an id, refusing any text that is not thirty ASCII digits.
    pub fn new(value: &str) -> (r: Result<Self, EventSourcingError>)
        ensures
            r is Ok <==> is_sortable_id_text(value@),
            r is Ok ==> r->Ok_0@ == value@,
            r is Err ==> r->Err_0 == EventSourcingError::MalformedSortableId,
    {
        if is_sortable_text(value) {
            Ok(SortableUniqueIdValue(value.to_owned()))
        } else {
            Err(EventSourcingError::MalformedSortableId)
        }
    }

    /// Whether the text has the layout of an id.
    pub fn is_well_formed(&self) -> (r: bool)
        ensures
            r == is_sortable_id_text(self@),
    {
        is_sortable_text(self.0.as_str())
    }

    /// The instant that the id's ticks denote.
    pub fn get_ticks(&self) -> (r: Result<UtcTime, EventSourcingError>)
        ensures
            match r {
                Ok(t) => is_sortable_id_text(self@) && t == time_of_ticks(
                    ticks_of_text(self@),
                ) && t.wf(),
                Err(e) => !is_sortable_id_text(self@) && e
                    == EventSourcingError::MalformedSortableId,
            },
    {
        let s = self.0.as_str();
        if !is_sortable_text(s) {
            return Err(EventSourcingError::MalformedSortableId);
        }
        let ticks = leading_ticks(s);
        proof {
            lemma_pow10_19();
        }
        if ticks >= TICKS_FROM_UNIX_TO_CSHARP {
            let since = ticks - TICKS_FROM_UNIX_TO_CSHARP;
            let secs = since / TICKS_PER_SECOND;
            let rest = since % TICKS_PER_SECOND;
            Ok(UtcTime { unix_seconds: secs as i64, subsec_nanos: (rest * 100) as u32 })
        } else {
            let back = TICKS_FROM_UNIX_TO_CSHARP - ticks;
            let q = back / TICKS_PER_SECOND;
            let rest = back % TICKS_PER_SECOND;
            if rest == 0 {
                proof {
                    lemma_fundamental_div_mod_converse(
                        ticks - TICKS_FROM_UNIX_TO_CSHARP,
                        TICKS_PER_SECOND as int,
                        -q,
                        0,
                    );
                }
                Ok(UtcTime { unix_seconds: -(q as i64), subsec_nanos: 0 })
            } else {
                proof {
                    lemma_fundamental_div_mod_converse(
                        ticks - TICKS_FROM_UNIX_TO_CSHARP,
                        TICKS_PER_SECOND as int,
                        -q - 1,
                        TICKS_PER_SECOND - rest,
                    );
                }
                Ok(
                    UtcTime {
                        unix_seconds: -(q as i64) - 1,
                        subsec_nanos: ((TICKS_PER_SECOND - rest) * 100) as u32,
                    },
                )
            }
        }
    }

    /// The id of an instant and a UUID: the instant's ticks, then the UUID's entropy.
    pub fn generate(timestamp: UtcTime, id: u128) -> (r: Self)
        requires
            in_id_range(timestamp),
        ensures
            r@ == id_text(ticks_of_time(timestamp), entropy_of(id)),
            is_sortable_id_text(r@),
    {
        let mut text = Self::get_tick_string(timestamp);
        let entropy = Self::get_id_string(id);
        text.append(entropy.as_str());
        proof {
            lemma_id_text_shape(ticks_of_time(timestamp), entropy_of(id));
        }
        SortableUniqueIdValue(text)
    }

    /// The id of an instant and a UUID, provided the instant's ticks fit in
    /// the tick field.
    pub fn generate_at(now: UtcTime, id: u128) -> (r: Result<Self, EventSourcingError>)
        requires
            now.wf(),
        ensures
            r is Ok <==> in_id_range(now),
            r is Ok ==> r->Ok_0@ == id_text(ticks_of_time(now), entropy_of(id))
                && is_sortable_id_text(r->Ok_0@),
            r is Err ==> r->Err_0 == EventSourcingError::ClockOutOfRange,
    {
        if now.unix_seconds > MAX_UNIX_SECONDS || now.unix_seconds < MIN_UNIX_SECONDS {
            return Err(EventSourcingError::ClockOutOfRange);
        }
        Ok(Self::generate(now, id))
    }

    /// An id for the instant at which the clock is read, with a random UUID.
    pub fn generate_now() -> (r: Result<Self, EventSourcingError>)
        ensures
            match r {
                Ok(id) => is_sortable_id_text(id@),
                Err(e) => e == EventSourcingError::ClockOutOfRange,
            },
    {
        Self::generate_at(UtcTime::now(), random_uuid())
    }

    /// The id just after the id text `last`, as a thirty-digit number plus
    /// one; there is none after thirty nines.
    pub fn successor_of(last: &str) -> (r: Result<Self, EventSourcingError>)
        ensures
            r is Ok <==> is_sortable_id_text(last@) && decimal_value(last@) + 1 < pow10(30),
            r is Ok ==> r->Ok_0@ == successor_text(last@) && is_sortable_id_text(r->Ok_0@)
                && lex_lt(last@, r->Ok_0@),
            r is Err ==> (r->Err_0 == EventSourcingError::MalformedSortableId <==> !is_sortable_id_text(last@)),
            r is Err ==> (r->Err_0 == EventSourcingError::MalformedSortableId || r->Err_0 == EventSourcingError::ClockOutOfRange),
    {
        if !is_sortable_text(last) {
            return Err(EventSourcingError::MalformedSortableId);
        }
        let v = leading_value(last, SORTABLE_ID_LENGTH);
        proof {
            lemma_pow10_30();
            assert(last@.subrange(0, 30) =~= last@);
            lemma_decimal_value_padded(last@);
        }
        if v >= 999_999_999_999_999_999_999_999_999_999 {
            return Err(EventSourcingError::ClockOutOfRange);
        }
        let text = padded_decimal(v + 1, SORTABLE_ID_LENGTH);
        proof {
            lemma_decimal_padded_order(v as nat, (v + 1) as nat, 30);
            lemma_decimal_padded_shape((v + 1) as nat, 30);
        }
        Ok(SortableUniqueIdValue(text))
    }

    /// A fresh id that sorts after the id text `last`: one generated from the
    /// clock with a random UUID, or, where that does not sort after `last`,
    /// the successor of `last`.
    pub fn generate_after(last: &str) -> (r: Result<Self, EventSourcingError>)
        ensures
            r is Ok ==> is_sortable_id_text(r->Ok_0@) && lex_lt(last@, r->Ok_0@),
            r is Err ==> r->Err_0 == EventSourcingError::ClockOutOfRange || (r->Err_0
                == EventSourcingError::MalformedSortableId && malformed_last_id(last@)),
    {
        let generated = match Self::generate_now() {
            Ok(id) => id,
            Err(e) => {
                return Err(e);
            },
        };
        if text_less_than(last, generated.0.as_str()) {
            Ok(generated)
        } else {
            Self::successor_of(last)
        }
    }

    /// The safe id for the instant `now`: the margin earlier, with zero entropy.
    pub fn safe_id_at(now: UtcTime) -> (r: Result<Self, EventSourcingError>)
        requires
            now.wf(),
        ensures
            match r {
                Ok(id) => in_id_range(now) && id@ == id_text(safe_ticks(ticks_of_time(now)), 0)
                    && is_sortable_id_text(id@),
                Err(e) => !in_id_range(now) && e == EventSourcingError::ClockOutOfRange,
            },
    {
        if now.unix_seconds > MAX_UNIX_SECONDS || now.unix_seconds < MIN_UNIX_SECONDS {
            return Err(EventSourcingError::ClockOutOfRange);
        }
        let ticks = Self::system_time_to_csharp_ticks(now);
        Ok(Self::id_of_ticks(Self::safe_tick_count(ticks)))
    }

    /// The id for the instant `now`, with zero entropy.
    pub fn current_id_at(now: UtcTime) -> (r: Result<Self, EventSourcingError>)
        requires
            now.wf(),
        ensures
            match r {
                Ok(id) => in_id_range(now) && id@ == id_text(ticks_of_time(now), 0)
                    && is_sortable_id_text(id@),
                Err(e) => !in_id_range(now) && e == EventSourcingError::ClockOutOfRange,
            },
    {
        if now.unix_seconds > MAX_UNIX_SECONDS || now.unix_seconds < MIN_UNIX_SECONDS {
            return Err(EventSourcingError::ClockOutOfRange);
        }
        let ticks = Self::system_time_to_csharp_ticks(now);
        Ok(Self::id_of_ticks(ticks))
    }

    /// The safe id for the instant at which the clock is read.
    pub fn get_safe_id_from_utc() -> (r: Result<Self, EventSourcingError>)
        ensures
            match r {
                Ok(id) => is_sortable_id_text(id@),
                Err(e) => e == EventSourcingError::ClockOutOfRange,
            },
    {
        Self::safe_id_at(UtcTime::now())
    }

    /// The id for the instant at which the clock is read, with zero entropy.
    pub fn get_current_id_from_utc() -> (r: Result<Self, EventSourcingError>)
        ensures
            match r {
                Ok(id) => is_sortable_id_text(id@),
                Err(e) => e == EventSourcingError::ClockOutOfRange,
            },
    {
        Self::current_id_at(UtcTime::now())
    }

    /// The safe id of this id: its ticks less the margin, with zero entropy.
    pub fn get_safe_id(&self) -> (r: Result<Self, EventSourcingError>)
        ensures
            match r {
                Ok(id) => is_sortable_id_text(self@) && id@ == id_text(
                    safe_ticks(ticks_of_text(self@)),
                    0,
                ),
                Err(e) => !is_sortable_id_text(self@) && e
                    == EventSourcingError::MalformedSortableId,
            },
    {
        let s = self.0.as_str();
        if !is_sortable_text(s) {
            return Err(EventSourcingError::MalformedSortableId);
        }
        let ticks = leading_ticks(s);
        Ok(Self::id_of_ticks(Self::safe_tick_count(ticks)))
    }

    /// Whether this id sorts strictly before `to_compare`.
    pub fn is_earlier_than(&self, to_compare: &Self) -> (r: bool)
        ensures
            r == lex_lt(self@, to_compare@),
    {
        text_less_than(self.0.as_str(), to_compare.0.as_str())
    }

    /// Whether this id sorts before `to_compare` or equals it.
    pub fn is_earlier_than_or_equal(&self, to_compare: &Self) -> (r: bool)
        ensures
            r == lex_le(self@, to_compare@),
    {
        proof {
            lemma_lex_le_is_not_gt(self@, to_compare@);
        }
        !text_less_than(to_compare.0.as_str(), self.0.as_str())
    }

    /// Whether this id sorts strictly after `to_compare`.
    pub fn is_later_than(&self, to_compare: &Self) -> (r: bool)
        ensures
            r == lex_lt(to_compare@, self@),
    {
        text_less_than(to_compare.0.as_str(), self.0.as_str())
    }

    /// Whether this id sorts after `to_compare` or equals it.
    pub fn is_later_than_or_equal(&self, to_compare: &Self) -> (r: bool)
        ensures
            r == lex_le(to_compare@, self@),
    {
        proof {
            lemma_lex_le_is_not_gt(to_compare@, self@);
        }
        !text_less_than(self.0.as_str(), to_compare.0.as_str())
    }

    /// The ticks of an instant in range.
    pub fn system_time_to_csharp_ticks(timestamp: UtcTime) -> (r: u64)
        requires
            in_id_range(timestamp),
        ensures
            r as nat == ticks_of_time(timestamp),
            (r as nat) < pow10(19),
    {
        proof {
            lemma_ticks_in_range(timestamp);
        }
        let sub = (timestamp.subsec_nanos / 100) as u64;
        if timestamp.unix_seconds >= 0 {
            let secs = timestamp.unix_seconds as u64;
            assert(secs * TICKS_PER_SECOND <= 9_378_644_031_990_000_000) by (nonlinear_arith)
                requires
                    secs <= 937_864_403_199,
            ;
            TICKS_FROM_UNIX_TO_CSHARP + secs * TICKS_PER_SECOND + sub
        } else {
            let back = (-timestamp.unix_seconds) as u64;
            assert(back * TICKS_PER_SECOND <= 621_355_968_000_000_000) by (nonlinear_arith)
                requires
                    back <= 62_135_596_800,
            ;
            TICKS_FROM_UNIX_TO_CSHARP - back * TICKS_PER_SECOND + sub
        }
    }

    /// The tick field of an instant in range.
    fn get_tick_string(timestamp: UtcTime) -> (r: String)
        requires
            in_id_range(timestamp),
        ensures
            r@ == decimal_padded(ticks_of_time(timestamp), 19),
    {
        let ticks = Self::system_time_to_csharp_ticks(timestamp);
        padded_decimal(ticks as u128, TICK_NUMBER_OF_LENGTH)
    }

    /// The entropy field of a UUID.
    fn get_id_string(id: u128) -> (r: String)
        ensures
            r@ == decimal_padded(entropy_of(id), 11),
    {
        let le = uuid_value_le(id);
        let h = le as i64;
        let magnitude: u64 = if h >= 0 {
            h as u64
        } else if h == i64::MIN {
            9_223_372_036_854_775_808
        } else {
            (-h) as u64
        };
        padded_decimal((magnitude % ENTROPY_MODULUS) as u128, ID_NUMBER_OF_LENGTH)
    }

    /// Ticks less the safety margin, never before 0001-01-01.
    fn safe_tick_count(ticks: u64) -> (r: u64)
        ensures
            r as nat == safe_ticks(ticks as nat),
    {
        if ticks >= SAFE_TICKS {
            ticks - SAFE_TICKS
        } else {
            0
        }
    }

    /// The id with these ticks and the nil UUID's entropy.
    fn id_of_ticks(ticks: u64) -> (r: Self)
        ensures
            r@ == id_text(ticks as nat, 0),
            is_sortable_id_text(r@),
    {
        let mut text = padded_decimal(ticks as u128, TICK_NUMBER_OF_LENGTH);
        let entropy = Self::get_id_string(NIL_UUID);
        proof {
            lemma_nil_entropy();
            lemma_id_text_shape(ticks as nat, 0);
        }
        text.append(entropy.as_str());
        SortableUniqueIdValue(text)
    }
}

} // verus!
