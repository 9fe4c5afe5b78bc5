//! Identifiers, slugs, secret references and idempotency keys.
//!
//! Every id is a type of its own, so a [`TenantId`] cannot stand where an
//! [`EmployeeId`] belongs. Nothing here reads the clock: construction takes
//! the instant.
use crate::ordered::Ordered;
use crate::text;
use crate::text::{bytes_in, chars_of, comes_before, find, find_outside, same_text, starts_with,
    text_of, Charset};
use crate::time::Timestamp;
use core::str::FromStr;
use unicode_normalization::UnicodeNormalization;
use uuid::{NoContext, Uuid};
use vstd::prelude::*;
use vstd::slice::slice_subrange;
use vstd::string::*;
use vstd::utf8::*;

verus! {

// ---------------------------------------------------------------------------
// UUIDs
// ---------------------------------------------------------------------------

/// Sixteen to the power of `n`.
pub open spec fn sixteen_to(n: nat) -> nat
    decreases n,
{
    if n == 0 {
        1
    } else {
        16 * sixteen_to((n - 1) as nat)
    }
}

/// The lower-case hexadecimal digit that stands for `n`.
pub open spec fn hex_digit(n: nat) -> char
    recommends
        n < 16,
{
    if n < 10 {
        (48 + n) as char
    } else {
        (87 + n) as char
    }
}

/// The `i`-th of the 32 hexadecimal digits of a UUID, the highest first.
pub open spec fn nibble(id: u128, i: nat) -> nat
    recommends
        i < 32,
{
    (id as nat / sixteen_to((31 - i) as nat)) % 16
}

/// How many of a UUID's four hyphens stand before position `i` of its text.
pub open spec fn hyphens_before(i: int) -> nat {
    if i <= 8 {
        0
    } else if i <= 13 {
        1
    } else if i <= 18 {
        2
    } else if i <= 23 {
        3
    } else {
        4
    }
}

/// The hyphenated text of a UUID: 32 lower-case hexadecimal digits in groups
/// of 8, 4, 4, 4 and 12.
pub open spec fn hyphenated(id: u128) -> Seq<char> {
    Seq::new(
        36,
        |i: int|
            if i == 8 || i == 13 || i == 18 || i == 23 {
                '-'
            } else {
                hex_digit(nibble(id, (i - hyphens_before(i)) as nat))
            },
    )
}

/// The UUID that `uuid::Uuid::parse_str` reads in a text, where it reads one.
pub uninterp spec fn uuid_read(s: Seq<char>) -> Option<u128>;

/// `uuid::Uuid::parse_str`: reads a UUID in any of the shapes that the crate
/// writes, hyphenated, simple, braced or as a URN. Of these the contract says
/// that the hyphenated text of a UUID reads as that UUID.
#[verifier::external_body]
fn read_uuid(s: &str) -> (r: Option<u128>)
    ensures
        r == uuid_read(s@),
        forall|id: u128| s@ == #[trigger] hyphenated(id) ==> r == Some(id),
{
    Uuid::parse_str(s).ok().map(|id| id.as_u128())
}

/// `uuid::Uuid`'s `Display`: the hyphenated text.
#[verifier::external_body]
fn uuid_text(id: u128) -> (r: String)
    ensures
        r@ == hyphenated(id),
{
    Uuid::from_u128(id).to_string()
}

/// A version 7 UUID stamped with a Unix time: the time in milliseconds in its
/// 48 highest bits, then the version, and the variant two bits below the
/// middle.
pub open spec fn stamped(id: u128, secs: u64, nanos: u32) -> bool {
    let millis = secs as nat * 1000 + nanos as nat / 1_000_000;
    &&& id as nat / sixteen_to(20) == millis % sixteen_to(12)
    &&& (id as nat / sixteen_to(19)) % 16 == 7
    &&& (id as nat / 0x4000_0000_0000_0000) % 4 == 2
}

/// `uuid::Uuid::new_v7` without a counter: a version 7 UUID stamped with the
/// time, filled up with random bits. Nothing is said of those.
#[verifier::external_body]
fn fresh_uuid(secs: u64, nanos: u32) -> (r: u128)
    requires
        secs < 0x0020_0000_0000_0000,
    ensures
        stamped(r, secs, nanos),
{
    Uuid::new_v7(uuid::Timestamp::from_unix(NoContext, secs, nanos)).as_u128()
}

/// The seconds that a version 7 UUID is stamped with: an instant before the
/// epoch counts as the epoch.
pub open spec fn stamp_secs(now: Timestamp) -> u64 {
    if now.secs() < 0 {
        0
    } else {
        now.secs() as u64
    }
}

/// A version 7 UUID stamped with an explicit instant.
fn uuid_v7_at(now: Timestamp) -> (r: u128)
    ensures
        stamped(r, stamp_secs(now), now.nanos()),
{
    let secs: i64 = now.secs();
    let seconds: u64 = if secs < 0 {
        0
    } else {
        secs as u64
    };
    fresh_uuid(seconds, now.nanos())
}

proof fn lemma_sixteen_to_positive(n: nat)
    ensures
        sixteen_to(n) > 0,
    decreases n,
{
    if n > 0 {
        lemma_sixteen_to_positive((n - 1) as nat);
    }
}

/// Two numbers below a power of sixteen that agree in every hexadecimal digit
/// from `k` up agree in what stands there.
proof fn lemma_same_digits(a: u128, b: u128, k: nat)
    requires
        k <= 32,
        forall|i: nat| i < 32 ==> #[trigger] nibble(a, i) == nibble(b, i),
    ensures
        a as nat / sixteen_to(k) == b as nat / sixteen_to(k),
    decreases 32 - k,
{
    let x = a as int;
    let y = b as int;
    if k == 32 {
        assert(sixteen_to(32) == (u128::MAX + 1)) by {
            reveal_with_fuel(sixteen_to, 33);
        }
        assert(x / (u128::MAX + 1) == 0);
        assert(y / (u128::MAX + 1) == 0);
    } else {
        lemma_same_digits(a, b, k + 1);
        lemma_sixteen_to_positive(k);
        let p = sixteen_to(k) as int;
        vstd::arithmetic::div_mod::lemma_div_denominator(x, p, 16);
        vstd::arithmetic::div_mod::lemma_div_denominator(y, p, 16);
        assert(p * 16 == sixteen_to(k + 1));
        assert(nibble(a, (31 - k) as nat) == nibble(b, (31 - k) as nat));
        assert((x / p) % 16 == (y / p) % 16);
        assert((x / p) / 16 == (y / p) / 16);
    }
}

proof fn lemma_hex_digit_injective(m: nat, n: nat)
    requires
        m < 16,
        n < 16,
        hex_digit(m) == hex_digit(n),
    ensures
        m == n,
{
}

/// Different UUIDs have different texts.
pub proof fn lemma_hyphenated_injective(a: u128, b: u128)
    requires
        hyphenated(a) == hyphenated(b),
    ensures
        a == b,
{
    assert forall|i: nat| i < 32 implies #[trigger] nibble(a, i) == nibble(b, i) by {
        let at: int = if i < 8 {
            i as int
        } else if i < 12 {
            i as int + 1
        } else if i < 16 {
            i as int + 2
        } else if i < 20 {
            i as int + 3
        } else {
            i as int + 4
        };
        assert(hyphenated(a)[at] == hyphenated(b)[at]);
        assert((at - hyphens_before(at)) as nat == i);
        assert(hyphenated(a)[at] == hex_digit(nibble(a, i)));
        assert(hyphenated(b)[at] == hex_digit(nibble(b, i)));
        lemma_hex_digit_injective(nibble(a, i), nibble(b, i));
    }
    lemma_same_digits(a, b, 0);
    assert(a as int / 1 == a && b as int / 1 == b);
}

/// The text of a UUID holds hexadecimal digits and hyphens only.
pub proof fn lemma_hyphenated_chars(id: u128, i: int)
    requires
        0 <= i < 36,
    ensures
        hyphenated(id).len() == 36,
        ({
            let c = hyphenated(id)[i];
            text::is_digit(c) || ('a' <= c && c <= 'f') || c == '-'
        }),
{
}

/// UUIDs stamped in different milliseconds sort by them, as long as both fit
/// the stamp's 48 bits.
pub proof fn law_v7_sorts_by_creation_time(
    a: u128,
    b: u128,
    a_secs: u64,
    a_nanos: u32,
    b_secs: u64,
    b_nanos: u32,
)
    requires
        stamped(a, a_secs, a_nanos),
        stamped(b, b_secs, b_nanos),
        a_secs as nat * 1000 + a_nanos as nat / 1_000_000 < b_secs as nat * 1000 + b_nanos as nat
            / 1_000_000,
        b_secs as nat * 1000 + b_nanos as nat / 1_000_000 < sixteen_to(12),
    ensures
        a < b,
{
    let p = sixteen_to(20) as int;
    lemma_sixteen_to_positive(20);
    let am = a_secs as nat * 1000 + a_nanos as nat / 1_000_000;
    let bm = b_secs as nat * 1000 + b_nanos as nat / 1_000_000;
    vstd::arithmetic::div_mod::lemma_small_mod(am, sixteen_to(12));
    vstd::arithmetic::div_mod::lemma_small_mod(bm, sixteen_to(12));
    if b <= a {
        vstd::arithmetic::div_mod::lemma_div_is_ordered(b as int, a as int, p);
    }
}

/// A text that should be a UUID and is not.
#[derive(Debug, Clone, Copy, PartialEq, Eq, Structural)]
pub struct NotAUuid;

/// The organisation an employee, conversation or secret belongs to.
#[derive(Debug, Clone, Copy, PartialEq, Eq, Structural, PartialOrd, Ord, Hash)]
pub struct TenantId(u128);

impl View for TenantId {
    type V = u128;

    closed spec fn view(&self) -> u128 {
        self.0
    }
}

impl TenantId {
    /// An id is its UUID.
    pub proof fn lemma_ext(a: TenantId, b: TenantId)
        ensures
            a@ == b@ ==> a == b,
    {
    }

    /// A fresh time-ordered id stamped at `now`.
    pub fn new_v7(now: Timestamp) -> (r: TenantId)
        ensures
            stamped(r@, stamp_secs(now), now.nanos()),
    {
        TenantId(uuid_v7_at(now))
    }

    /// Rehydrate an id that already exists.
    pub fn from_uuid(uuid: u128) -> (r: TenantId)
        ensures
            r@ == uuid,
    {
        TenantId(uuid)
    }

    /// The wrapped UUID, for storage and wire formats only.
    pub fn as_uuid(&self) -> (r: u128)
        ensures
            r == self@,
    {
        self.0
    }

    /// The hyphenated text of the id.
    pub fn to_text(&self) -> (r: String)
        ensures
            r@ == hyphenated(self@),
    {
        uuid_text(self.0)
    }

    /// Reads an id; its own text reads back as itself.
    pub fn parse(s: &str) -> (r: Result<TenantId, NotAUuid>)
        ensures
            match r {
                Ok(id) => uuid_read(s@) == Some(id@),
                Err(_) => uuid_read(s@) is None,
            },
            forall|id: u128| s@ == #[trigger] hyphenated(id) ==> r is Ok && r->Ok_0@ == id,
    {
        match read_uuid(s) {
            Some(id) => Ok(TenantId(id)),
            None => Err(NotAUuid),
        }
    }
}

impl FromStr for TenantId {
    type Err = NotAUuid;

    fn from_str(s: &str) -> (r: Result<Self, Self::Err>)
        ensures
            match r {
                Ok(id) => uuid_read(s@) == Some(id@),
                Err(_) => uuid_read(s@) is None,
            },
            forall|id: u128| s@ == #[trigger] hyphenated(id) ==> r is Ok && r->Ok_0@ == id,
    {
        TenantId::parse(s)
    }
}

/// One AI employee.
#[derive(Debug, Clone, Copy, PartialEq, Eq, Structural, PartialOrd, Ord, Hash)]
pub struct EmployeeId(u128);

impl View for EmployeeId {
    type V = u128;

    closed spec fn view(&self) -> u128 {
        self.0
    }
}

impl EmployeeId {
    /// An id is its UUID.
    pub proof fn lemma_ext(a: EmployeeId, b: EmployeeId)
        ensures
            a@ == b@ ==> a == b,
    {
    }

    /// A fresh time-ordered id stamped at `now`.
    pub fn new_v7(now: Timestamp) -> (r: EmployeeId)
        ensures
            stamped(r@, stamp_secs(now), now.nanos()),
    {
        EmployeeId(uuid_v7_at(now))
    }

    /// Rehydrate an id that already exists.
    pub fn from_uuid(uuid: u128) -> (r: EmployeeId)
        ensures
            r@ == uuid,
    {
        EmployeeId(uuid)
    }

    /// The wrapped UUID, for storage and wire formats only.
    pub fn as_uuid(&self) -> (r: u128)
        ensures
            r == self@,
    {
        self.0
    }

    /// The hyphenated text of the id.
    pub fn to_text(&self) -> (r: String)
        ensures
            r@ == hyphenated(self@),
    {
        uuid_text(self.0)
    }

    /// Reads an id; its own text reads back as itself.
    pub fn parse(s: &str) -> (r: Result<EmployeeId, NotAUuid>)
        ensures
            match r {
                Ok(id) => uuid_read(s@) == Some(id@),
                Err(_) => uuid_read(s@) is None,
            },
            forall|id: u128| s@ == #[trigger] hyphenated(id) ==> r is Ok && r->Ok_0@ == id,
    {
        match read_uuid(s) {
            Some(id) => Ok(EmployeeId(id)),
            None => Err(NotAUuid),
        }
    }
}

impl FromStr for EmployeeId {
    type Err = NotAUuid;

    fn from_str(s: &str) -> (r: Result<Self, Self::Err>)
        ensures
            match r {
                Ok(id) => uuid_read(s@) == Some(id@),
                Err(_) => uuid_read(s@) is None,
            },
            forall|id: u128| s@ == #[trigger] hyphenated(id) ==> r is Ok && r->Ok_0@ == id,
    {
        EmployeeId::parse(s)
    }
}

/// One conversation thread with an employee.
#[derive(Debug, Clone, Copy, PartialEq, Eq, Structural, PartialOrd, Ord, Hash)]
pub struct ConversationId(u128);

impl View for ConversationId {
    type V = u128;

    closed spec fn view(&self) -> u128 {
        self.0
    }
}

impl ConversationId {
    /// An id is its UUID.
    pub proof fn lemma_ext(a: ConversationId, b: ConversationId)
        ensures
            a@ == b@ ==> a == b,
    {
    }

    /// A fresh time-ordered id stamped at `now`.
    pub fn new_v7(now: Timestamp) -> (r: ConversationId)
        ensures
            stamped(r@, stamp_secs(now), now.nanos()),
    {
        ConversationId(uuid_v7_at(now))
    }

    /// Rehydrate an id that already exists.
    pub fn from_uuid(uuid: u128) -> (r: ConversationId)
        ensures
            r@ == uuid,
    {
        ConversationId(uuid)
    }

    /// The wrapped UUID, for storage and wire formats only.
    pub fn as_uuid(&self) -> (r: u128)
        ensures
            r == self@,
    {
        self.0
    }

    /// The hyphenated text of the id.
    pub fn to_text(&self) -> (r: String)
        ensures
            r@ == hyphenated(self@),
    {
        uuid_text(self.0)
    }

    /// Reads an id; its own text reads back as itself.
    pub fn parse(s: &str) -> (r: Result<ConversationId, NotAUuid>)
        ensures
            match r {
                Ok(id) => uuid_read(s@) == Some(id@),
                Err(_) => uuid_read(s@) is None,
            },
            forall|id: u128| s@ == #[trigger] hyphenated(id) ==> r is Ok && r->Ok_0@ == id,
    {
        match read_uuid(s) {
            Some(id) => Ok(ConversationId(id)),
            None => Err(NotAUuid),
        }
    }
}

impl FromStr for ConversationId {
    type Err = NotAUuid;

    fn from_str(s: &str) -> (r: Result<Self, Self::Err>)
        ensures
            match r {
                Ok(id) => uuid_read(s@) == Some(id@),
                Err(_) => uuid_read(s@) is None,
            },
            forall|id: u128| s@ == #[trigger] hyphenated(id) ==> r is Ok && r->Ok_0@ == id,
    {
        ConversationId::parse(s)
    }
}

/// One human approval request.
#[derive(Debug, Clone, Copy, PartialEq, Eq, Structural, PartialOrd, Ord, Hash)]
pub struct ApprovalId(u128);

impl View for ApprovalId {
    type V = u128;

    closed spec fn view(&self) -> u128 {
        self.0
    }
}

impl ApprovalId {
    /// An id is its UUID.
    pub proof fn lemma_ext(a: ApprovalId, b: ApprovalId)
        ensures
            a@ == b@ ==> a == b,
    {
    }

    /// A fresh time-ordered id stamped at `now`.
    pub fn new_v7(now: Timestamp) -> (r: ApprovalId)
        ensures
            stamped(r@, stamp_secs(now), now.nanos()),
    {
        ApprovalId(uuid_v7_at(now))
    }

    /// Rehydrate an id that already exists.
    pub fn from_uuid(uuid: u128) -> (r: ApprovalId)
        ensures
            r@ == uuid,
    {
        ApprovalId(uuid)
    }

    /// The wrapped UUID, for storage and wire formats only.
    pub fn as_uuid(&self) -> (r: u128)
        ensures
            r == self@,
    {
        self.0
    }

    /// The hyphenated text of the id.
    pub fn to_text(&self) -> (r: String)
        ensures
            r@ == hyphenated(self@),
    {
        uuid_text(self.0)
    }

    /// Reads an id; its own text reads back as itself.
    pub fn parse(s: &str) -> (r: Result<ApprovalId, NotAUuid>)
        ensures
            match r {
                Ok(id) => uuid_read(s@) == Some(id@),
                Err(_) => uuid_read(s@) is None,
            },
            forall|id: u128| s@ == #[trigger] hyphenated(id) ==> r is Ok && r->Ok_0@ == id,
    {
        match read_uuid(s) {
            Some(id) => Ok(ApprovalId(id)),
            None => Err(NotAUuid),
        }
    }
}

impl FromStr for ApprovalId {
    type Err = NotAUuid;

    fn from_str(s: &str) -> (r: Result<Self, Self::Err>)
        ensures
            match r {
                Ok(id) => uuid_read(s@) == Some(id@),
                Err(_) => uuid_read(s@) is None,
            },
            forall|id: u128| s@ == #[trigger] hyphenated(id) ==> r is Ok && r->Ok_0@ == id,
    {
        ApprovalId::parse(s)
    }
}

/// One recorded policy decision.
#[derive(Debug, Clone, Copy, PartialEq, Eq, Structural, PartialOrd, Ord, Hash)]
pub struct DecisionId(u128);

impl View for DecisionId {
    type V = u128;

    closed spec fn view(&self) -> u128 {
        self.0
    }
}

impl DecisionId {
    /// An id is its UUID.
    pub proof fn lemma_ext(a: DecisionId, b: DecisionId)
        ensures
            a@ == b@ ==> a == b,
    {
    }

    /// A fresh time-ordered id stamped at `now`.
    pub fn new_v7(now: Timestamp) -> (r: DecisionId)
        ensures
            stamped(r@, stamp_secs(now), now.nanos()),
    {
        DecisionId(uuid_v7_at(now))
    }

    /// Rehydrate an id that already exists.
    pub fn from_uuid(uuid: u128) -> (r: DecisionId)
        ensures
            r@ == uuid,
    {
        DecisionId(uuid)
    }

    /// The wrapped UUID, for storage and wire formats only.
    pub fn as_uuid(&self) -> (r: u128)
        ensures
            r == self@,
    {
        self.0
    }

    /// The hyphenated text of the id.
    pub fn to_text(&self) -> (r: String)
        ensures
            r@ == hyphenated(self@),
    {
        uuid_text(self.0)
    }

    /// Reads an id; its own text reads back as itself.
    pub fn parse(s: &str) -> (r: Result<DecisionId, NotAUuid>)
        ensures
            match r {
                Ok(id) => uuid_read(s@) == Some(id@),
                Err(_) => uuid_read(s@) is None,
            },
            forall|id: u128| s@ == #[trigger] hyphenated(id) ==> r is Ok && r->Ok_0@ == id,
    {
        match read_uuid(s) {
            Some(id) => Ok(DecisionId(id)),
            None => Err(NotAUuid),
        }
    }
}

impl FromStr for DecisionId {
    type Err = NotAUuid;

    fn from_str(s: &str) -> (r: Result<Self, Self::Err>)
        ensures
            match r {
                Ok(id) => uuid_read(s@) == Some(id@),
                Err(_) => uuid_read(s@) is None,
            },
            forall|id: u128| s@ == #[trigger] hyphenated(id) ==> r is Ok && r->Ok_0@ == id,
    {
        DecisionId::parse(s)
    }
}

/// One item on a company's shared work board.
#[derive(Debug, Clone, Copy, PartialEq, Eq, Structural, PartialOrd, Ord, Hash)]
pub struct WorkItemId(u128);

impl View for WorkItemId {
    type V = u128;

    closed spec fn view(&self) -> u128 {
        self.0
    }
}

impl WorkItemId {
    /// An id is its UUID.
    pub proof fn lemma_ext(a: WorkItemId, b: WorkItemId)
        ensures
            a@ == b@ ==> a == b,
    {
    }

    /// A fresh time-ordered id stamped at `now`.
    pub fn new_v7(now: Timestamp) -> (r: WorkItemId)
        ensures
            stamped(r@, stamp_secs(now), now.nanos()),
    {
        WorkItemId(uuid_v7_at(now))
    }

    /// Rehydrate an id that already exists.
    pub fn from_uuid(uuid: u128) -> (r: WorkItemId)
        ensures
            r@ == uuid,
    {
        WorkItemId(uuid)
    }

    /// The wrapped UUID, for storage and wire formats only.
    pub fn as_uuid(&self) -> (r: u128)
        ensures
            r == self@,
    {
        self.0
    }

    /// The hyphenated text of the id.
    pub fn to_text(&self) -> (r: String)
        ensures
            r@ == hyphenated(self@),
    {
        uuid_text(self.0)
    }

    /// Reads an id; its own text reads back as itself.
    pub fn parse(s: &str) -> (r: Result<WorkItemId, NotAUuid>)
        ensures
            match r {
                Ok(id) => uuid_read(s@) == Some(id@),
                Err(_) => uuid_read(s@) is None,
            },
            forall|id: u128| s@ == #[trigger] hyphenated(id) ==> r is Ok && r->Ok_0@ == id,
    {
        match read_uuid(s) {
            Some(id) => Ok(WorkItemId(id)),
            None => Err(NotAUuid),
        }
    }
}

impl FromStr for WorkItemId {
    type Err = NotAUuid;

    fn from_str(s: &str) -> (r: Result<Self, Self::Err>)
        ensures
            match r {
                Ok(id) => uuid_read(s@) == Some(id@),
                Err(_) => uuid_read(s@) is None,
            },
            forall|id: u128| s@ == #[trigger] hyphenated(id) ==> r is Ok && r->Ok_0@ == id,
    {
        WorkItemId::parse(s)
    }
}

/// One moment an employee undertook, in that employee's own diary.
#[derive(Debug, Clone, Copy, PartialEq, Eq, Structural, PartialOrd, Ord, Hash)]
pub struct AppointmentId(u128);

impl View for AppointmentId {
    type V = u128;

    closed spec fn view(&self) -> u128 {
        self.0
    }
}

impl AppointmentId {
    /// An id is its UUID.
    pub proof fn lemma_ext(a: AppointmentId, b: AppointmentId)
        ensures
            a@ == b@ ==> a == b,
    {
    }

    /// A fresh time-ordered id stamped at `now`.
    pub fn new_v7(now: Timestamp) -> (r: AppointmentId)
        ensures
            stamped(r@, stamp_secs(now), now.nanos()),
    {
        AppointmentId(uuid_v7_at(now))
    }

    /// Rehydrate an id that already exists.
    pub fn from_uuid(uuid: u128) -> (r: AppointmentId)
        ensures
            r@ == uuid,
    {
        AppointmentId(uuid)
    }

    /// The wrapped UUID, for storage and wire formats only.
    pub fn as_uuid(&self) -> (r: u128)
        ensures
            r == self@,
    {
        self.0
    }

    /// The hyphenated text of the id.
    pub fn to_text(&self) -> (r: String)
        ensures
            r@ == hyphenated(self@),
    {
        uuid_text(self.0)
    }

    /// Reads an id; its own text reads back as itself.
    pub fn parse(s: &str) -> (r: Result<AppointmentId, NotAUuid>)
        ensures
            match r {
                Ok(id) => uuid_read(s@) == Some(id@),
                Err(_) => uuid_read(s@) is None,
            },
            forall|id: u128| s@ == #[trigger] hyphenated(id) ==> r is Ok && r->Ok_0@ == id,
    {
        match read_uuid(s) {
            Some(id) => Ok(AppointmentId(id)),
            None => Err(NotAUuid),
        }
    }
}

impl FromStr for AppointmentId {
    type Err = NotAUuid;

    fn from_str(s: &str) -> (r: Result<Self, Self::Err>)
        ensures
            match r {
                Ok(id) => uuid_read(s@) == Some(id@),
                Err(_) => uuid_read(s@) is None,
            },
            forall|id: u128| s@ == #[trigger] hyphenated(id) ==> r is Ok && r->Ok_0@ == id,
    {
        AppointmentId::parse(s)
    }
}

/// One demand for money the company has made. It is a handle, not a
/// sequential invoice number.
#[derive(Debug, Clone, Copy, PartialEq, Eq, Structural, PartialOrd, Ord, Hash)]
pub struct InvoiceId(u128);

impl View for InvoiceId {
    type V = u128;

    closed spec fn view(&self) -> u128 {
        self.0
    }
}

impl InvoiceId {
    /// An id is its UUID.
    pub proof fn lemma_ext(a: InvoiceId, b: InvoiceId)
        ensures
            a@ == b@ ==> a == b,
    {
    }

    /// A fresh time-ordered id stamped at `now`.
    pub fn new_v7(now: Timestamp) -> (r: InvoiceId)
        ensures
            stamped(r@, stamp_secs(now), now.nanos()),
    {
        InvoiceId(uuid_v7_at(now))
    }

    /// Rehydrate an id that already exists.
    pub fn from_uuid(uuid: u128) -> (r: InvoiceId)
        ensures
            r@ == uuid,
    {
        InvoiceId(uuid)
    }

    /// The wrapped UUID, for storage and wire formats only.
    pub fn as_uuid(&self) -> (r: u128)
        ensures
            r == self@,
    {
        self.0
    }

    /// The hyphenated text of the id.
    pub fn to_text(&self) -> (r: String)
        ensures
            r@ == hyphenated(self@),
    {
        uuid_text(self.0)
    }

    /// Reads an id; its own text reads back as itself.
    pub fn parse(s: &str) -> (r: Result<InvoiceId, NotAUuid>)
        ensures
            match r {
                Ok(id) => uuid_read(s@) == Some(id@),
                Err(_) => uuid_read(s@) is None,
            },
            forall|id: u128| s@ == #[trigger] hyphenated(id) ==> r is Ok && r->Ok_0@ == id,
    {
        match read_uuid(s) {
            Some(id) => Ok(InvoiceId(id)),
            None => Err(NotAUuid),
        }
    }
}

impl FromStr for InvoiceId {
    type Err = NotAUuid;

    fn from_str(s: &str) -> (r: Result<Self, Self::Err>)
        ensures
            match r {
                Ok(id) => uuid_read(s@) == Some(id@),
                Err(_) => uuid_read(s@) is None,
            },
            forall|id: u128| s@ == #[trigger] hyphenated(id) ==> r is Ok && r->Ok_0@ == id,
    {
        InvoiceId::parse(s)
    }
}

// ---------------------------------------------------------------------------
// Slug
// ---------------------------------------------------------------------------

/// Unicode normalization form KC of a text, as the `unicode_normalization`
/// crate computes it.
pub uninterp spec fn nfkc(s: Seq<char>) -> Seq<char>;

/// The lower-case mapping of a character, as `char::to_lowercase` computes it.
pub uninterp spec fn lowercase_of(c: char) -> Seq<char>;

/// `unicode_normalization::UnicodeNormalization::nfkc`: the text in
/// normalization form KC. ASCII is in that form already.
#[verifier::external_body]
fn to_nfkc(s: &str) -> (r: String)
    ensures
        r@ == nfkc(s@),
        is_ascii_chars(s@) ==> r@ == s@,
{
    s.nfkc().collect::<String>()
}

/// `char::to_lowercase`: the lower-case mapping of a character, which may take
/// several. In ASCII it maps `A-Z` to `a-z` and nothing else.
#[verifier::external_body]
fn to_lowercase(c: char) -> (r: String)
    ensures
        r@ == lowercase_of(c),
        c <= '\u{7f}' ==> r@ == seq![text::ascii_lower(c)],
{
    c.to_lowercase().to_string()
}

/// Every character of `s` in lower case.
pub open spec fn lowered(s: Seq<char>) -> Seq<char>
    decreases s.len(),
{
    if s.len() == 0 {
        Seq::empty()
    } else {
        lowered(s.drop_last()) + lowercase_of(s.last())
    }
}

/// Why a candidate string is not a usable [`Slug`].
#[derive(Debug, Clone, Copy, PartialEq, Eq, Structural)]
pub enum SlugError {
    /// Outside 2 to 32 characters after normalisation.
    Length {
        /// Length after normalisation.
        got: usize,
    },
    /// A character that is not `a-z`, `0-9` or `-` survived normalisation.
    Charset {
        /// The first offending character.
        found: char,
    },
    /// Leading or trailing hyphen.
    Boundary,
    /// Two hyphens in a row.
    ConsecutiveHyphens,
}

/// `s` has `c` twice in a row.
pub open spec fn has_double(s: Seq<char>, c: char) -> bool {
    exists|i: int| 0 <= i < s.len() - 1 && #[trigger] s[i] == c && s[i + 1] == c
}

/// What keeps a normalised text from being a slug.
pub open spec fn slug_fault(t: Seq<char>) -> Option<SlugError> {
    if let Some(found) = text::first_outside(t, Charset::Handle) {
        Some(SlugError::Charset { found })
    } else if t.len() < Slug::MIN_LEN || t.len() > Slug::MAX_LEN {
        Some(SlugError::Length { got: t.len() as usize })
    } else if t[0] == '-' || t.last() == '-' {
        Some(SlugError::Boundary)
    } else if has_double(t, '-') {
        Some(SlugError::ConsecutiveHyphens)
    } else {
        None
    }
}

/// Whether `s` has `c` twice in a row.
pub fn doubled(s: &[char], c: char) -> (r: bool)
    ensures
        r == has_double(s@, c),
{
    let mut i: usize = 1;
    while i < s.len()
        invariant
            1 <= i,
            forall|j: int| 0 <= j < i - 1 && j < s@.len() - 1 ==> !(#[trigger] s@[j] == c && s@[j + 1]
                == c),
        decreases s@.len() - i,
    {
        if s[i - 1] == c && s[i] == c {
            assert(s@[i - 1] == c && s@[(i - 1) + 1] == c);
            return true;
        }
        i = i + 1;
    }
    false
}

/// A validated employee handle.
///
/// A slug becomes the local part of an email address and a DNS label, so it is
/// narrower than either: normalised to form KC, lowercased, and then held to
/// `[a-z0-9-]` with no leading, trailing or doubled hyphen.
#[derive(Debug, PartialEq, Eq, PartialOrd, Ord, Hash)]
pub struct Slug(String);

impl View for Slug {
    type V = Seq<char>;

    closed spec fn view(&self) -> Seq<char> {
        self.0@
    }
}

impl Slug {
    /// Shortest accepted slug.
    pub const MIN_LEN: usize = 2;

    /// Longest accepted slug.
    pub const MAX_LEN: usize = 32;

    #[verifier::type_invariant]
    spec fn well_formed(self) -> bool {
        slug_fault(self.0@) is None
    }

    /// What holds of every slug there is.
    pub open spec fn valid(self) -> bool {
        slug_fault(self@) is None
    }

    /// The form in which a raw text is judged.
    pub open spec fn form(raw: Seq<char>) -> Seq<char> {
        lowered(nfkc(raw))
    }

    /// Validates a text that is normalised and lowercased already.
    pub fn from_normalized(t: &str) -> (r: Result<Slug, SlugError>)
        ensures
            match r {
                Ok(slug) => slug_fault(t@) is None && slug@ == t@,
                Err(e) => slug_fault(t@) == Some(e),
            },
    {
        let chars = chars_of(t);
        let s = chars.as_slice();
        if let Some(found) = find_outside(s, Charset::Handle) {
            return Err(SlugError::Charset { found });
        }
        let len: usize = s.len();
        if len < Self::MIN_LEN || len > Self::MAX_LEN {
            return Err(SlugError::Length { got: len });
        }
        if s[0] == '-' || s[len - 1] == '-' {
            return Err(SlugError::Boundary);
        }
        if doubled(s, '-') {
            return Err(SlugError::ConsecutiveHyphens);
        }
        Ok(Slug(t.to_owned()))
    }

    /// Normalise and validate. What is a slug already stays as it is.
    pub fn parse(raw: &str) -> (r: Result<Slug, SlugError>)
        ensures
            match r {
                Ok(slug) => slug_fault(Slug::form(raw@)) is None && slug@ == Slug::form(raw@),
                Err(e) => slug_fault(Slug::form(raw@)) == Some(e),
            },
            slug_fault(raw@) is None ==> r is Ok && r->Ok_0@ == raw@,
    {
        let folded = to_nfkc(raw);
        let chars = chars_of(folded.as_str());
        let mut t = String::new();
        let ghost plain = slug_fault(raw@) is None;
        proof {
            text::lemma_first_outside(raw@, Charset::Handle);
            if plain {
                text::lemma_drawn_from_is_ascii(raw@, Charset::Handle);
            }
            assert(chars@.take(0) == Seq::<char>::empty());
        }
        for i in 0..chars.len()
            invariant
                chars@ == nfkc(raw@),
                t@ == lowered(chars@.take(i as int)),
                plain ==> chars@ == raw@ && t@ == chars@.take(i as int),
                plain ==> text::drawn_from(raw@, Charset::Handle),
        {
            proof {
                assert(chars@.take(i + 1).drop_last() == chars@.take(i as int));
                assert(chars@.take(i + 1) == chars@.take(i as int).push(chars@[i as int]));
                if plain {
                    assert(Charset::Handle.admits(raw@[i as int]));
                }
            }
            t.append(to_lowercase(chars[i]).as_str());
            assert(plain ==> t@ == chars@.take(i + 1));
        }
        assert(chars@.take(chars@.len() as int) == chars@);
        Slug::from_normalized(t.as_str())
    }

    /// The normalised slug text.
    pub fn as_str(&self) -> (r: &str)
        ensures
            r@ == self@,
            slug_fault(r@) is None,
    {
        proof {
            use_type_invariant(self);
        }
        self.0.as_str()
    }

    /// Whether two slugs are the same.
    pub fn same(&self, other: &Slug) -> (r: bool)
        ensures
            r == (self@ == other@),
    {
        same_text(self.as_str(), other.as_str())
    }
}

impl Clone for Slug {
    fn clone(&self) -> (r: Slug)
        ensures
            r == *self,
    {
        proof {
            use_type_invariant(self);
        }
        Slug(self.0.clone())
    }
}

impl FromStr for Slug {
    type Err = SlugError;

    fn from_str(s: &str) -> (r: Result<Self, Self::Err>)
        ensures
            match r {
                Ok(slug) => slug_fault(Slug::form(s@)) is None && slug@ == Slug::form(s@),
                Err(e) => slug_fault(Slug::form(s@)) == Some(e),
            },
            slug_fault(s@) is None ==> r is Ok && r->Ok_0@ == s@,
    {
        Slug::parse(s)
    }
}

impl Ordered for Slug {
    type Key = Seq<char>;

    open spec fn key(&self) -> Seq<char> {
        self@
    }

    open spec fn before(a: Seq<char>, b: Seq<char>) -> bool {
        text::text_before(a, b)
    }

    proof fn before_irreflexive(a: Seq<char>) {
        text::lemma_text_before_irreflexive(a);
    }

    proof fn before_transitive(a: Seq<char>, b: Seq<char>, c: Seq<char>) {
        text::lemma_text_before_transitive(a, b, c);
    }

    proof fn before_total(a: Seq<char>, b: Seq<char>) {
        text::lemma_text_before_total(a, b);
    }

    fn precedes(&self, other: &Self) -> (r: bool) {
        let r = comes_before(self.as_str(), other.as_str());
        assert(r == text::text_before(self.key(), other.key()));
        assert(Slug::before(self@, other@) == text::text_before(self@, other@));
        assert(Slug::before(self.key(), other.key()) == Slug::before(self@, other@));
        r
    }

    fn duplicate(&self) -> (r: Self) {
        self.clone()
    }
}

// ---------------------------------------------------------------------------
// SecretRef
// ---------------------------------------------------------------------------

/// Why a string is not a usable [`SecretRef`].
#[derive(Debug, Clone, Copy, PartialEq, Eq)]
pub enum SecretRefError {
    /// Missing the `secret://` scheme.
    Scheme,
    /// Wrong segment count or wrong literal segments.
    Shape,
    /// A path segment that should be a UUID is not one.
    NotAUuid {
        /// `tenant` or `employee`.
        field: &'static str,
    },
    /// Secret name empty or too long.
    NameLength,
    /// Secret name contains something other than `[A-Za-z0-9_-]`.
    NameCharset {
        /// The first offending character.
        found: char,
    },
}

/// The pieces of a text between its `sep`s: one more than there are `sep`s.
pub open spec fn split(s: Seq<char>, sep: char) -> Seq<Seq<char>>
    decreases s.len(),
{
    let at = text::position_of(s, sep) as int;
    if at < s.len() {
        seq![s.take(at)] + split(s.skip(at + 1), sep)
    } else {
        seq![s]
    }
}

/// The first piece is what stands before the first separator.
pub proof fn lemma_split_first(a: Seq<char>, rest: Seq<char>, sep: char)
    requires
        !a.contains(sep),
    ensures
        split(a + seq![sep] + rest, sep) == seq![a] + split(rest, sep),
        split(a, sep) == seq![a],
{
    let s = a + seq![sep] + rest;
    text::lemma_position_of(s, sep);
    text::lemma_position_of(a, sep);
    assert forall|j: int| 0 <= j < a.len() implies #[trigger] s[j] != sep by {
        assert(s[j] == a[j]);
        assert(a.contains(a[j]));
    }
    assert(s[a.len() as int] == sep);
    text::lemma_position_is(s, sep, a.len() as int);
    assert(s.take(a.len() as int) == a);
    assert(s.skip(a.len() as int + 1) == rest);
}

/// The pieces of `chars` between its `sep`s.
pub fn split_at_each(chars: &[char], sep: char) -> (r: Vec<Vec<char>>)
    ensures
        r@.len() == split(chars@, sep).len(),
        forall|i: int| 0 <= i < r@.len() ==> (#[trigger] r@[i])@ == split(chars@, sep)[i],
{
    let mut out: Vec<Vec<char>> = Vec::new();
    let mut from: usize = 0;
    let ghost whole = split(chars@, sep);
    assert(chars@.skip(0) == chars@);
    assert(whole.skip(0) == whole);
    loop
        invariant
            from <= chars@.len(),
            whole == split(chars@, sep),
            out@.len() <= whole.len(),
            split(chars@.skip(from as int), sep) == whole.skip(out@.len() as int),
            forall|i: int| 0 <= i < out@.len() ==> (#[trigger] out@[i])@ == whole[i],
        decreases chars@.len() - from,
    {
        let rest = slice_subrange(chars, from, chars.len());
        assert(rest@ == chars@.skip(from as int));
        let at: usize = find(rest, sep);
        let piece = copy_chars(slice_subrange(rest, 0, at));
        proof {
            text::lemma_position_of(rest@, sep);
            let tail = whole.skip(out@.len() as int);
            assert(split(rest@, sep)[0] == piece@) by {
                if at == rest@.len() {
                    assert(rest@.take(at as int) == rest@);
                }
            }
            assert(tail.len() > 0);
            assert(tail[0] == whole[out@.len() as int]);
        }
        out.push(piece);
        if at == rest.len() {
            assert(split(rest@, sep).len() == 1);
            return out;
        }
        proof {
            assert(rest@.skip(at + 1) == chars@.skip(from + at + 1));
            assert(split(rest@, sep).skip(1) == split(rest@.skip(at + 1), sep));
            assert(whole.skip(out@.len() - 1).skip(1) == whole.skip(out@.len() as int));
        }
        from = from + at + 1;
    }
}

fn copy_chars(chars: &[char]) -> (r: Vec<char>)
    ensures
        r@ == chars@,
{
    let mut out: Vec<char> = Vec::new();
    for i in 0..chars.len()
        invariant
            out@ == chars@.take(i as int),
    {
        assert(chars@.take(i + 1) == chars@.take(i as int).push(chars@[i as int]));
        out.push(chars[i]);
    }
    assert(chars@.take(chars@.len() as int) == chars@);
    out
}

/// A name that a secret can have.
pub open spec fn is_secret_name(name: Seq<char>) -> bool {
    &&& 0 < name.len()
    &&& text::byte_len(name) <= SecretRef::MAX_NAME_LEN
    &&& text::drawn_from(name, Charset::SecretName)
}

/// The text of a secret reference.
pub open spec fn secret_text(tenant: u128, employee: u128, name: Seq<char>) -> Seq<char> {
    "secret://tenant/"@ + hyphenated(tenant) + "/employee/"@ + hyphenated(employee) + "/"@ + name
}

/// A parsed pointer into the secret store, scoped to a tenant and an employee.
///
/// The scoping segments are UUIDs and the name excludes `.` and `/`, so there
/// is no way to spell `..` in one.
#[derive(Debug, PartialEq, Eq, Hash)]
pub struct SecretRef {
    tenant_id: TenantId,
    employee_id: EmployeeId,
    name: String,
}

impl View for SecretRef {
    type V = (u128, u128, Seq<char>);

    closed spec fn view(&self) -> (u128, u128, Seq<char>) {
        (self.tenant_id@, self.employee_id@, self.name@)
    }
}

impl SecretRef {
    /// Longest accepted secret name.
    pub const MAX_NAME_LEN: usize = 64;

    #[verifier::type_invariant]
    spec fn well_formed(self) -> bool {
        is_secret_name(self.name@)
    }

    /// What [`SecretRef::new`] returns.
    pub open spec fn built(
        tenant: u128,
        employee: u128,
        name: Seq<char>,
        r: Result<SecretRef, SecretRefError>,
    ) -> bool {
        match r {
            Ok(s) => is_secret_name(name) && s@ == (tenant, employee, name),
            Err(SecretRefError::NameLength) => name.len() == 0 || text::byte_len(name)
                > SecretRef::MAX_NAME_LEN,
            Err(SecretRefError::NameCharset { found }) => 0 < name.len() && text::byte_len(name)
                <= SecretRef::MAX_NAME_LEN && text::first_outside(name, Charset::SecretName)
                == Some(found),
            Err(_) => false,
        }
    }

    /// What [`SecretRef::parse`] returns.
    pub open spec fn parsed(raw: Seq<char>, r: Result<SecretRef, SecretRefError>) -> bool {
        let segments = split(raw.skip(9), '/');
        if !text::has_prefix(raw, "secret://"@) {
            r matches Err(SecretRefError::Scheme)
        } else if segments.len() != 5 || segments[0] != "tenant"@ || segments[2] != "employee"@ {
            r matches Err(SecretRefError::Shape)
        } else {
            SecretRef::scoped(uuid_read(segments[1]), uuid_read(segments[3]), segments[4], r)
        }
    }

    /// What [`SecretRef::from_scope`] returns.
    pub open spec fn scoped(
        tenant: Option<u128>,
        employee: Option<u128>,
        name: Seq<char>,
        r: Result<SecretRef, SecretRefError>,
    ) -> bool {
        match (tenant, employee) {
            (None, _) => r matches Err(SecretRefError::NotAUuid { field }) && field@ == "tenant"@,
            (Some(_), None) => r matches Err(SecretRefError::NotAUuid { field }) && field@
                == "employee"@,
            (Some(t), Some(e)) => SecretRef::built(t, e, name, r),
        }
    }

    /// Build a ref from already-trusted parts. The name is still validated.
    pub fn new(tenant_id: TenantId, employee_id: EmployeeId, name: &str) -> (r: Result<
        SecretRef,
        SecretRefError,
    >)
        ensures
            SecretRef::built(tenant_id@, employee_id@, name@, r),
    {
        let len: usize = bytes_in(name);
        let chars = chars_of(name);
        if chars.len() == 0 || len > Self::MAX_NAME_LEN {
            return Err(SecretRefError::NameLength);
        }
        if let Some(found) = find_outside(chars.as_slice(), Charset::SecretName) {
            return Err(SecretRefError::NameCharset { found });
        }
        Ok(SecretRef { tenant_id, employee_id, name: name.to_owned() })
    }

    /// Build a ref from the scoping segments as they were read, `None` where a
    /// segment is no UUID, and the name.
    pub fn from_scope(
        tenant_id: Option<TenantId>,
        employee_id: Option<EmployeeId>,
        name: &str,
    ) -> (r: Result<SecretRef, SecretRefError>)
        ensures
            SecretRef::scoped(
                match tenant_id {
                    Some(t) => Some(t@),
                    None => None,
                },
                match employee_id {
                    Some(e) => Some(e@),
                    None => None,
                },
                name@,
                r,
            ),
    {
        let tenant_id = match tenant_id {
            Some(id) => id,
            None => return Err(SecretRefError::NotAUuid { field: "tenant" }),
        };
        let employee_id = match employee_id {
            Some(id) => id,
            None => return Err(SecretRefError::NotAUuid { field: "employee" }),
        };
        SecretRef::new(tenant_id, employee_id, name)
    }

    /// Parse `secret://tenant/{tenant}/employee/{employee}/{name}`. The text
    /// of a reference reads back as that reference.
    pub fn parse(raw: &str) -> (r: Result<SecretRef, SecretRefError>)
        ensures
            SecretRef::parsed(raw@, r),
            forall|t: u128, e: u128, n: Seq<char>|
                raw@ == #[trigger] secret_text(t, e, n) && is_secret_name(n) ==> r is Ok
                    && r->Ok_0@ == (t, e, n),
    {
        let chars = chars_of(raw);
        let scheme = chars_of("secret://");
        proof {
            reveal_strlit("secret://");
            assert forall|t: u128, e: u128, n: Seq<char>|
                raw@ == #[trigger] secret_text(t, e, n) && is_secret_name(
                    n,
                ) implies text::has_prefix(raw@, "secret://"@) && split(raw@.skip(9), '/') == seq![
                "tenant"@,
                hyphenated(t),
                "employee"@,
                hyphenated(e),
                n,
            ] by {
                lemma_secret_segments(t, e, n);
            }
        }
        if !starts_with(chars.as_slice(), scheme.as_slice()) {
            return Err(SecretRefError::Scheme);
        }
        let rest = slice_subrange(chars.as_slice(), 9, chars.len());
        assert(rest@ == raw@.skip(9));
        let segments = split_at_each(rest, '/');
        if segments.len() != 5 {
            return Err(SecretRefError::Shape);
        }
        let first = text_of(segments[0].as_slice());
        let third = text_of(segments[2].as_slice());
        if !same_text(first.as_str(), "tenant") || !same_text(third.as_str(), "employee") {
            return Err(SecretRefError::Shape);
        }
        let tenant = text_of(segments[1].as_slice());
        let tenant_id = match TenantId::parse(tenant.as_str()) {
            Ok(id) => Some(id),
            Err(_) => None,
        };
        let employee = text_of(segments[3].as_slice());
        let employee_id = match EmployeeId::parse(employee.as_str()) {
            Ok(id) => Some(id),
            Err(_) => None,
        };
        let name = text_of(segments[4].as_slice());
        proof {
            text::lemma_first_outside(name@, Charset::SecretName);
        }
        SecretRef::from_scope(tenant_id, employee_id, name.as_str())
    }

    /// The tenant this secret is scoped to; compare against the acting
    /// principal.
    pub fn tenant_id(&self) -> (r: TenantId)
        ensures
            r@ == self@.0,
    {
        self.tenant_id
    }

    /// The employee this secret is scoped to; compare against the acting
    /// principal.
    pub fn employee_id(&self) -> (r: EmployeeId)
        ensures
            r@ == self@.1,
    {
        self.employee_id
    }

    /// The secret's name within its scope.
    pub fn name(&self) -> (r: &str)
        ensures
            r@ == self@.2,
            is_secret_name(r@),
    {
        proof {
            use_type_invariant(self);
        }
        self.name.as_str()
    }

    /// The reference as text.
    pub fn to_text(&self) -> (r: String)
        ensures
            r@ == secret_text(self@.0, self@.1, self@.2),
    {
        let mut out = "secret://tenant/".to_owned();
        out.append(self.tenant_id.to_text().as_str());
        out.append("/employee/");
        out.append(self.employee_id.to_text().as_str());
        out.append("/");
        out.append(self.name.as_str());
        out
    }
}

impl Clone for SecretRef {
    fn clone(&self) -> (r: SecretRef)
        ensures
            r == *self,
    {
        proof {
            use_type_invariant(self);
        }
        SecretRef {
            tenant_id: self.tenant_id,
            employee_id: self.employee_id,
            name: self.name.clone(),
        }
    }
}

proof fn lemma_secret_segments(t: u128, e: u128, n: Seq<char>)
    requires
        is_secret_name(n),
    ensures
        text::has_prefix(secret_text(t, e, n), "secret://"@),
        split(secret_text(t, e, n).skip(9), '/') == seq![
            "tenant"@,
            hyphenated(t),
            "employee"@,
            hyphenated(e),
            n,
        ],
{
    reveal_strlit("secret://");
    reveal_strlit("secret://tenant/");
    reveal_strlit("tenant");
    reveal_strlit("/employee/");
    reveal_strlit("employee");
    reveal_strlit("/");
    let raw = secret_text(t, e, n);
    let slash = seq!['/'];
    let ht = hyphenated(t);
    let he = hyphenated(e);
    assert(raw.take(9) == "secret://"@);
    let r4 = n;
    let r3 = he + slash + r4;
    let r2 = "employee"@ + slash + r3;
    let r1 = ht + slash + r2;
    let r0 = "tenant"@ + slash + r1;
    assert(raw.skip(9) == r0);
    assert(!ht.contains('/')) by {
        if ht.contains('/') {
            let i = choose|i: int| 0 <= i < ht.len() && ht[i] == '/';
            lemma_hyphenated_chars(t, i);
        }
    }
    assert(!he.contains('/')) by {
        if he.contains('/') {
            let i = choose|i: int| 0 <= i < he.len() && he[i] == '/';
            lemma_hyphenated_chars(e, i);
        }
    }
    assert(!n.contains('/')) by {
        if n.contains('/') {
            let i = choose|i: int| 0 <= i < n.len() && n[i] == '/';
            assert(Charset::SecretName.admits(n[i]));
        }
    }
    assert(!"tenant"@.contains('/'));
    assert(!"employee"@.contains('/'));
    lemma_split_first("tenant"@, r1, '/');
    lemma_split_first(ht, r2, '/');
    lemma_split_first("employee"@, r3, '/');
    lemma_split_first(he, r4, '/');
    lemma_split_first(n, Seq::empty(), '/');
    assert(split(raw.skip(9), '/') =~= seq!["tenant"@, ht, "employee"@, he, n]);
}

// ---------------------------------------------------------------------------
// IdempotencyKey
// ---------------------------------------------------------------------------

/// Why an idempotency key is rejected.
#[derive(Debug, Clone, Copy, PartialEq, Eq, Structural)]
pub enum IdempotencyKeyError {
    /// Outside the accepted length window.
    Length,
    /// Contains white space, a control character or a non-ASCII character.
    Charset {
        /// The first offending character.
        found: char,
    },
    /// A stored key that carries neither namespace prefix.
    Prefix,
}

/// The key of one provisioning step of one employee.
pub open spec fn step_key(employee: u128, step: Seq<char>) -> Seq<char> {
    "employee:"@ + hyphenated(employee) + ":step:"@ + step
}

/// The key that stands for a client's own key.
pub open spec fn client_key(raw: Seq<char>) -> Seq<char> {
    "client:"@ + raw
}

/// A stable de-duplication token for an at-most-once side effect.
///
/// Client keys are prefixed, so a caller cannot craft one that collides with
/// the key of a provisioning step.
#[derive(Debug, PartialEq, Eq, PartialOrd, Ord, Hash)]
pub struct IdempotencyKey(String);

impl View for IdempotencyKey {
    type V = Seq<char>;

    closed spec fn view(&self) -> Seq<char> {
        self.0@
    }
}

impl IdempotencyKey {
    /// Shortest accepted client key.
    pub const MIN_CLIENT_LEN: usize = 8;

    /// Longest accepted client key.
    pub const MAX_CLIENT_LEN: usize = 200;

    /// What keeps a client's text from being a key.
    pub open spec fn client_fault(raw: Seq<char>) -> Option<IdempotencyKeyError> {
        if text::byte_len(raw) < IdempotencyKey::MIN_CLIENT_LEN || text::byte_len(raw)
            > IdempotencyKey::MAX_CLIENT_LEN {
            Some(IdempotencyKeyError::Length)
        } else if let Some(found) = text::first_outside(raw, Charset::Graphic) {
            Some(IdempotencyKeyError::Charset { found })
        } else {
            None
        }
    }

    /// What keeps a stored text from being a key: behind a client's prefix what
    /// keeps a client's text from being one.
    pub open spec fn stored_fault(t: Seq<char>) -> Option<IdempotencyKeyError> {
        if text::has_prefix(t, "client:"@) {
            IdempotencyKey::client_fault(t.skip(7))
        } else if !text::has_prefix(t, "employee:"@) {
            Some(IdempotencyKeyError::Prefix)
        } else if text::byte_len(t) > IdempotencyKey::MAX_CLIENT_LEN + 7 {
            Some(IdempotencyKeyError::Length)
        } else if let Some(found) = text::first_outside(t, Charset::Graphic) {
            Some(IdempotencyKeyError::Charset { found })
        } else {
            None
        }
    }

    /// The key for one provisioning step of one employee: the same inputs give
    /// the same key, forever.
    pub fn for_step(employee: EmployeeId, step_name: &str) -> (r: IdempotencyKey)
        ensures
            r@ == step_key(employee@, step_name@),
    {
        let mut out = "employee:".to_owned();
        out.append(employee.to_text().as_str());
        out.append(":step:");
        out.append(step_name);
        IdempotencyKey(out)
    }

    /// Accept an `Idempotency-Key` header value.
    pub fn from_client(raw: &str) -> (r: Result<IdempotencyKey, IdempotencyKeyError>)
        ensures
            match r {
                Ok(key) => IdempotencyKey::client_fault(raw@) is None && key@ == client_key(raw@),
                Err(e) => IdempotencyKey::client_fault(raw@) == Some(e),
            },
    {
        let len: usize = bytes_in(raw);
        if len < Self::MIN_CLIENT_LEN || len > Self::MAX_CLIENT_LEN {
            return Err(IdempotencyKeyError::Length);
        }
        let chars = chars_of(raw);
        if let Some(found) = find_outside(chars.as_slice(), Charset::Graphic) {
            return Err(IdempotencyKeyError::Charset { found });
        }
        let mut out = "client:".to_owned();
        out.append(raw);
        Ok(IdempotencyKey(out))
    }

    /// Rehydrate a stored key: only what carries a prefix that a constructor
    /// writes, and behind a client's prefix only what a client may send.
    pub fn try_from(value: String) -> (r: Result<IdempotencyKey, IdempotencyKeyError>)
        ensures
            match r {
                Ok(key) => IdempotencyKey::stored_fault(value@) is None && key@ == value@,
                Err(e) => IdempotencyKey::stored_fault(value@) == Some(e),
            },
    {
        let chars = chars_of(value.as_str());
        let client = chars_of("client:");
        let employee = chars_of("employee:");
        proof {
            reveal_strlit("client:");
        }
        if starts_with(chars.as_slice(), client.as_slice()) {
            let rest = text_of(slice_subrange(chars.as_slice(), 7, chars.len()));
            assert(rest@ == value@.skip(7));
            assert(client_key(rest@) =~= value@);
            return IdempotencyKey::from_client(rest.as_str());
        }
        if !starts_with(chars.as_slice(), employee.as_slice()) {
            return Err(IdempotencyKeyError::Prefix);
        }
        if bytes_in(value.as_str()) > Self::MAX_CLIENT_LEN + 7 {
            return Err(IdempotencyKeyError::Length);
        }
        if let Some(found) = find_outside(chars.as_slice(), Charset::Graphic) {
            return Err(IdempotencyKeyError::Charset { found });
        }
        Ok(IdempotencyKey(value))
    }

    /// The key as stored and sent to providers.
    pub fn as_str(&self) -> (r: &str)
        ensures
            r@ == self@,
    {
        self.0.as_str()
    }
}

impl Clone for IdempotencyKey {
    fn clone(&self) -> (r: IdempotencyKey)
        ensures
            r == *self,
    {
        IdempotencyKey(self.0.clone())
    }
}

/// A client's key is never the key of a provisioning step, whatever the client
/// writes.
pub proof fn law_client_keys_forge_no_step_key(raw: Seq<char>, employee: u128, step: Seq<char>)
    ensures
        client_key(raw) != step_key(employee, step),
{
    reveal_strlit("client:");
    reveal_strlit("employee:");
    assert(client_key(raw)[0] == 'c');
    assert(step_key(employee, step)[0] == 'e');
}

/// Step keys differ where the employee or the step does.
pub proof fn law_step_keys_are_distinct(a: u128, s: Seq<char>, b: u128, t: Seq<char>)
    requires
        step_key(a, s) == step_key(b, t),
    ensures
        a == b,
        s == t,
{
    reveal_strlit("employee:");
    reveal_strlit(":step:");
    let x = step_key(a, s);
    let y = step_key(b, t);
    assert(x.subrange(9, 45) == hyphenated(a));
    assert(y.subrange(9, 45) == hyphenated(b));
    lemma_hyphenated_injective(a, b);
    assert(x.skip(51) == s);
    assert(y.skip(51) == t);
}

/// Client keys differ where the client's texts do.
pub proof fn law_client_keys_are_distinct(a: Seq<char>, b: Seq<char>)
    requires
        client_key(a) == client_key(b),
    ensures
        a == b,
{
    reveal_strlit("client:");
    assert(client_key(a).skip(7) == a);
    assert(client_key(b).skip(7) == b);
}

/// An accepted client key rehydrates from its stored text.
pub proof fn law_client_keys_rehydrate(raw: Seq<char>)
    requires
        IdempotencyKey::client_fault(raw) is None,
    ensures
        IdempotencyKey::stored_fault(client_key(raw)) is None,
{
    reveal_strlit("client:");
    assert(client_key(raw).take(7) == "client:"@);
    assert(client_key(raw).skip(7) == raw);
}

/// A stored key with a client's prefix is one that a client could have sent.
pub proof fn law_stored_client_keys_were_accepted(stored: Seq<char>)
    requires
        IdempotencyKey::stored_fault(stored) is None,
        text::has_prefix(stored, "client:"@),
    ensures
        IdempotencyKey::client_fault(stored.skip(7)) is None,
        stored == client_key(stored.skip(7)),
{
    reveal_strlit("client:");
    assert(stored =~= stored.take(7) + stored.skip(7));
}

/// A step key rehydrates from its stored text, where the step's name is
/// printable ASCII and short enough to store.
pub proof fn law_step_keys_rehydrate(employee: u128, step: Seq<char>)
    requires
        text::drawn_from(step, Charset::Graphic),
        step.len() + 51 <= IdempotencyKey::MAX_CLIENT_LEN + 7,
    ensures
        IdempotencyKey::stored_fault(step_key(employee, step)) is None,
{
    reveal_strlit("employee:");
    reveal_strlit(":step:");
    let t = step_key(employee, step);
    reveal_strlit("client:");
    assert(t[0] == 'e' && t.take(7)[0] == t[0]);
    text::lemma_first_outside(t, Charset::Graphic);
    assert(t.take(9) == "employee:"@);
    assert forall|i: int| 0 <= i < t.len() implies Charset::Graphic.admits(#[trigger] t[i]) by {
        if 9 <= i < 45 {
            lemma_hyphenated_chars(employee, i - 9);
            assert(t[i] == hyphenated(employee)[i - 9]);
        } else if i >= 51 {
            assert(t[i] == step[i - 51]);
        }
    }
    text::lemma_drawn_from_is_ascii(t, Charset::Graphic);
}

/// A handle has from two to thirty-two characters, each a lower-case letter, a digit
/// or a hyphen; no hyphen stands at an end or beside another.
pub proof fn law_a_handle_is_short_and_plain(t: Seq<char>)
    ensures
        slug_fault(t) is None <==> {
            &&& 2 <= t.len() <= 32
            &&& forall|i: int|
                0 <= i < t.len() ==> ('a' <= #[trigger] t[i] && t[i] <= 'z') || ('0' <= t[i] && t[i]
                    <= '9') || t[i] == '-'
            &&& t[0] != '-'
            &&& t.last() != '-'
            &&& forall|i: int| 0 <= i < t.len() - 1 && #[trigger] t[i] == '-' ==> t[i + 1] != '-'
        },
        slug_fault(t) matches Some(SlugError::Length { got }) ==> t.len() < 2 || t.len() > 32,
        slug_fault(t) is Some && slug_fault(t)->Some_0 is Boundary ==> t[0] == '-' || t.last()
            == '-',
        slug_fault(t) matches Some(SlugError::Charset { found }) ==> t.contains(found)
            && !Charset::Handle.admits(found),
{
    text::law_the_first_outsider_is_the_first(t, Charset::Handle);
    if slug_fault(t) is None {
        assert forall|i: int| 0 <= i < t.len() implies ('a' <= #[trigger] t[i] && t[i] <= 'z') || (
        '0' <= t[i] && t[i] <= '9') || t[i] == '-' by {
            assert(Charset::Handle.admits(t[i]));
        }
    }
    if forall|i: int|
        0 <= i < t.len() ==> ('a' <= #[trigger] t[i] && t[i] <= 'z') || ('0' <= t[i] && t[i] <= '9')
            || t[i] == '-' {
        assert forall|i: int| 0 <= i < t.len() implies Charset::Handle.admits(
            #[trigger] t[i],
        ) by {}
    }
}

/// A secret's name has from one to sixty-four characters, each a letter, a digit, a
/// hyphen or an underscore: no name has a dot or a slash.
pub proof fn law_a_secret_name_is_short_and_plain(name: Seq<char>)
    ensures
        is_secret_name(name) <==> 1 <= name.len() <= 64 && text::drawn_from(
            name,
            Charset::SecretName,
        ),
        is_secret_name(name) ==> !name.contains('.') && !name.contains('/'),
{
    if text::drawn_from(name, Charset::SecretName) {
        text::lemma_drawn_from_is_ascii(name, Charset::SecretName);
        if name.contains('.') {
            assert(Charset::SecretName.admits(name[name.index_of('.')]));
        }
        if name.contains('/') {
            assert(Charset::SecretName.admits(name[name.index_of('/')]));
        }
    }
}

/// The text of a reference reads back as that reference, where the two ids read
/// back as themselves.
pub proof fn law_a_secret_reference_reads_back(
    tenant: u128,
    employee: u128,
    name: Seq<char>,
    r: Result<SecretRef, SecretRefError>,
)
    requires
        is_secret_name(name),
        uuid_read(hyphenated(tenant)) == Some(tenant),
        uuid_read(hyphenated(employee)) == Some(employee),
        SecretRef::parsed(secret_text(tenant, employee, name), r),
    ensures
        r is Ok,
        r->Ok_0@ == (tenant, employee, name),
{
    reveal_strlit("secret://tenant/");
    reveal_strlit("secret://");
    reveal_strlit("/employee/");
    reveal_strlit("employee");
    reveal_strlit("tenant");
    reveal_strlit("/");
    let raw = secret_text(tenant, employee, name);
    let (t, e) = (hyphenated(tenant), hyphenated(employee));
    let slash = seq!['/'];
    let last = e + slash + name;
    let third = "employee"@ + slash + last;
    let second = t + slash + third;
    let first = "tenant"@ + slash + second;
    assert(raw.take(9) =~= "secret://"@);
    assert(raw.skip(9) =~= first);
    assert(!t.contains('/') && !e.contains('/')) by {
        if t.contains('/') {
            lemma_hyphenated_chars(tenant, t.index_of('/'));
        }
        if e.contains('/') {
            lemma_hyphenated_chars(employee, e.index_of('/'));
        }
    }
    law_a_secret_name_is_short_and_plain(name);
    lemma_split_first("tenant"@, second, '/');
    lemma_split_first(t, third, '/');
    lemma_split_first("employee"@, last, '/');
    lemma_split_first(e, name, '/');
    lemma_split_first(name, Seq::empty(), '/');
    let pieces = split(raw.skip(9), '/');
    assert(pieces =~= seq!["tenant"@, t, "employee"@, e, name]);
    text::lemma_first_outside(name, Charset::SecretName);
}

/// A client's key has from eight to two hundred printable characters and no space;
/// a stored one has a client's prefix before such a key, or an employee's.
pub proof fn law_a_client_key_is_printable(raw: Seq<char>)
    ensures
        IdempotencyKey::client_fault(raw) is None <==> 8 <= raw.len() <= 200 && forall|i: int|
            0 <= i < raw.len() ==> 0x21 <= (#[trigger] raw[i]) as int <= 0x7e,
        IdempotencyKey::stored_fault(raw) is None ==> text::has_prefix(raw, "client:"@)
            || text::has_prefix(raw, "employee:"@),
{
    text::lemma_first_outside(raw, Charset::Graphic);
    if forall|i: int| 0 <= i < raw.len() ==> 0x21 <= (#[trigger] raw[i]) as int <= 0x7e {
        assert forall|i: int| 0 <= i < raw.len() implies Charset::Graphic.admits(
            #[trigger] raw[i],
        ) by {}
    }
    if text::drawn_from(raw, Charset::Graphic) {
        text::lemma_drawn_from_is_ascii(raw, Charset::Graphic);
        assert forall|i: int| 0 <= i < raw.len() implies 0x21 <= (#[trigger] raw[i]) as int
            <= 0x7e by {
            assert(Charset::Graphic.admits(raw[i]));
        }
    }
}

/// An id is stamped with the second it was made in, and with the epoch where that lay
/// before it.
pub proof fn law_a_stamp_is_the_second_of_making(now: Timestamp)
    ensures
        now.secs() >= 0 ==> stamp_secs(now) == now.secs(),
        now.secs() <= 0 ==> stamp_secs(now) == 0,
{
}

} // verus!
