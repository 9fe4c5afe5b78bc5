//! The closed set of side effects an employee can ask the world to perform,
//! plus the parsed values those side effects are addressed with.
//!
//! An [`Action`] never carries a caller's claim about another of its fields:
//! it carries the thing itself, already parsed. A call carries its number and
//! no country; whoever needs the country derives it from the number. Facts
//! that are not part of the action live in [`ActionCtx`], which the host
//! assembles and never the model.
use crate::decimal;
use crate::decimal::{decimal_text, read_decimal};
use crate::ids;
use crate::ids::{doubled, ConversationId, EmployeeId, SecretRef, Slug, TenantId};
use crate::money::Money;
use crate::ordered::Ordered;
use crate::text;
use crate::text::{bytes_in, chars_of, comes_before, ends_with, find, find_outside, same_text,
    starts_with, text_of, to_ascii_lower, trim, Charset};
use crate::time::Timestamp;
use core::str::FromStr;
use url::{Host, Url};
use vstd::prelude::*;
use vstd::slice::slice_subrange;
use vstd::string::*;

pub use crate::message::Channel;
pub use crate::untrusted::TrustLabel;

verus! {

// ---------------------------------------------------------------------------
// Domain
// ---------------------------------------------------------------------------

/// Why a string is not a usable [`Domain`].
#[derive(Debug, Clone, PartialEq, Eq)]
pub enum DomainError {
    Empty,
    /// Not a bare host name.
    NotAHost(String),
    /// An address is not a domain.
    IpAddress(String),
    /// A host needs at least two labels.
    TooFewLabels(String),
    /// A well-formed host that only resolves inside somebody's network.
    NotPublic(String),
}

/// What stands in the way of reading a host name in a URL.
#[derive(Debug, Clone, Copy, PartialEq, Eq, Structural)]
pub enum HostFault {
    /// Not a URL.
    Unparsed,
    /// A URL without a host.
    NoHost,
    /// The host is an IP address.
    Address,
}

/// The host name that the `url` crate reads in a URL, normalised, or what
/// stands in the way.
pub uninterp spec fn url_host(url: Seq<char>) -> Result<Seq<char>, HostFault>;

/// The URL in which a bare host is read.
pub open spec fn host_url(host: Seq<char>) -> Seq<char> {
    "https://"@ + host + "/"@
}

/// A character of a plain host: an ASCII letter or digit, a hyphen or a dot.
pub open spec fn is_plain_char(c: char) -> bool {
    text::is_upper(c) || text::is_lower(c) || text::is_digit(c) || c == '-' || c == '.'
}

/// A host that is spelled with plain characters only.
pub open spec fn is_plain(h: Seq<char>) -> bool {
    forall|i: int| 0 <= i < h.len() ==> is_plain_char(#[trigger] h[i])
}

/// Two hyphens in a row, as the label of a punycoded name has them.
pub open spec fn has_double_hyphen(h: Seq<char>) -> bool {
    exists|i: int| 0 <= i < h.len() - 1 && #[trigger] h[i] == '-' && h[i + 1] == '-'
}

/// What stands behind the last dot.
pub open spec fn last_label(h: Seq<char>) -> Seq<char>
    decreases h.len(),
{
    if h.len() == 0 || h.last() == '.' {
        Seq::empty()
    } else {
        last_label(h.drop_last()).push(h.last())
    }
}

/// A label that is read as a number: decimal digits, or hexadecimal ones behind
/// `0x`. A host that ends in one is an address or nothing.
pub open spec fn is_number_label(label: Seq<char>) -> bool {
    ||| label.len() > 0 && text::drawn_from(label, Charset::Digits)
    ||| label.len() >= 2 && label[0] == '0' && text::ascii_lower(label[1]) == 'x' && forall|i: int|
        2 <= i < label.len() ==> is_hex_digit(#[trigger] label[i])
}

/// A hexadecimal digit.
pub open spec fn is_hex_digit(c: char) -> bool {
    text::is_digit(c) || ('a' <= c && c <= 'f') || ('A' <= c && c <= 'F')
}

/// A plain host that is no longer than a URL can hold, names no punycoded label
/// and does not end in a dot.
pub open spec fn is_ordinary(h: Seq<char>) -> bool {
    &&& is_plain(h)
    &&& 0 < h.len() <= 0x1000_0000
    &&& h.last() != '.'
    &&& !has_double_hyphen(h)
}

/// The host that a call gave, or what stood in its way, as mathematical values.
pub open spec fn host_of(r: Result<String, HostFault>) -> Result<Seq<char>, HostFault> {
    match r {
        Ok(h) => Ok(h@),
        Err(f) => Err(f),
    }
}

/// `url::Url::parse` and `url::Url::host`: the host of a URL, normalised as a
/// browser does it, with IDNA mapping, punycode and ASCII lower case.
///
/// Of a plain host the contract says that its case makes no difference, that a
/// name which is read comes out in lower case, and, where no label is
/// punycoded, that it is read unless it ends in a number. Nothing more is said
/// of which host is read in other texts.
#[verifier::external_body]
fn read_host(url: &str) -> (r: Result<String, HostFault>)
    ensures
        host_of(r) == url_host(url@),
        forall|h: Seq<char>|
            url@ == #[trigger] host_url(h) && is_plain(h) ==> host_of(r) == url_host(
                host_url(text::ascii_lowered(h)),
            ) && (r is Ok ==> r->Ok_0@ == text::ascii_lowered(h)),
        forall|h: Seq<char>|
            url@ == #[trigger] host_url(h) && is_ordinary(h) ==> (r is Ok <==> !is_number_label(
                last_label(h),
            )),
{
    let parsed = Url::parse(url).map_err(|_| HostFault::Unparsed)?;
    match parsed.host() {
        Some(Host::Domain(h)) => Ok(h.to_owned()),
        Some(Host::Ipv4(_)) => Err(HostFault::Address),
        Some(Host::Ipv6(_)) => Err(HostFault::Address),
        None => Err(HostFault::NoHost),
    }
}

/// `s` without the dots it ends with.
pub open spec fn without_root_dots(s: Seq<char>) -> Seq<char>
    decreases s.len(),
{
    if s.len() > 0 && s.last() == '.' {
        without_root_dots(s.drop_last())
    } else {
        s
    }
}

/// The part of a raw text that should be a host: no white space around it, no
/// root dot.
pub open spec fn bare(raw: Seq<char>) -> Seq<char> {
    without_root_dots(text::trimmed(raw))
}

/// A character that a bare host does not have: it would start a scheme, a
/// path, credentials, a port, a query or a fragment.
pub open spec fn is_url_syntax(c: char) -> bool {
    c == '/' || c == '\\' || c == '@' || c == ':' || c == '?' || c == '#' || c == ' '
}

/// `a` is `b` or sits underneath it, at a label boundary.
pub open spec fn within(a: Seq<char>, b: Seq<char>) -> bool {
    a == b || text::has_suffix(a, seq!['.'] + b)
}

/// A name under one of the suffixes that never name a host on the public
/// internet.
pub open spec fn is_private_name(h: Seq<char>) -> bool {
    within(h, "local"@) || within(h, "internal"@) || within(h, "localhost"@) || within(
        h,
        "home.arpa"@,
    )
}

/// Whether `a` is `b` or sits underneath it, at a label boundary.
fn is_at_or_under(a: &str, b: &str) -> (r: bool)
    ensures
        r == within(a@, b@),
{
    if same_text(a, b) {
        return true;
    }
    let mut dotted = ".".to_owned();
    dotted.append(b);
    proof {
        reveal_strlit(".");
        assert(dotted@ == seq!['.'] + b@);
    }
    ends_with(chars_of(a).as_slice(), chars_of(dotted.as_str()).as_slice())
}

/// `chars` without the dots it ends with.
fn drop_root_dots(chars: &[char]) -> (r: &[char])
    ensures
        r@ == without_root_dots(chars@),
{
    let mut to: usize = chars.len();
    assert(chars@.take(to as int) == chars@);
    while to > 0 && chars[to - 1] == '.'
        invariant
            to <= chars@.len(),
            without_root_dots(chars@) == without_root_dots(chars@.take(to as int)),
        decreases to,
    {
        assert(chars@.take(to as int).drop_last() == chars@.take(to - 1));
        to = to - 1;
    }
    let r = slice_subrange(chars, 0, to);
    assert(r@ == chars@.take(to as int));
    r
}

/// Without its root dots a text does not end in a dot.
proof fn lemma_without_root_dots(s: Seq<char>)
    ensures
        without_root_dots(s).len() > 0 ==> without_root_dots(s).last() != '.',
        without_root_dots(without_root_dots(s)) == without_root_dots(s),
    decreases s.len(),
{
    if s.len() > 0 && s.last() == '.' {
        lemma_without_root_dots(s.drop_last());
    }
}

/// A plain host in lower case is plain, has no white space, ends in a dot only
/// where it did, and stays as it is in lower case.
proof fn lemma_plain_lowered(h: Seq<char>)
    requires
        is_plain(h),
    ensures
        is_plain(text::ascii_lowered(h)),
        text::ascii_lowered(text::ascii_lowered(h)) == text::ascii_lowered(h),
        text::trimmed(text::ascii_lowered(h)) == text::ascii_lowered(h),
        h.len() > 0 && h.last() != '.' ==> without_root_dots(text::ascii_lowered(h))
            == text::ascii_lowered(h),
{
    let low = text::ascii_lowered(h);
    assert forall|i: int| 0 <= i < low.len() implies is_plain_char(#[trigger] low[i])
        && text::ascii_lower(low[i]) == low[i] && !text::is_white_space(low[i]) && (low[i] == '.'
        <==> h[i] == '.') by {
        assert(is_plain_char(h[i]));
    }
    if low.len() > 0 {
        assert(is_plain_char(low[0]) && is_plain_char(low[low.len() - 1]));
    }
    text::lemma_trimmed_fixpoint(low);
    assert(text::ascii_lowered(low) =~= low);
}

/// A host name normalised once, at the edge, so that every later comparison is
/// a comparison of bytes.
#[derive(Debug, PartialEq, Eq, PartialOrd, Ord, Hash)]
pub struct Domain(String);

impl View for Domain {
    type V = Seq<char>;

    closed spec fn view(&self) -> Seq<char> {
        self.0@
    }
}

impl Domain {
    #[verifier::type_invariant]
    spec fn well_formed(self) -> bool {
        self.valid()
    }

    /// What holds of every domain there is: two labels or more, no root dot, and
    /// on the public internet.
    pub open spec fn valid(self) -> bool {
        self@.contains('.') && self@.last() != '.' && !is_private_name(self@)
    }

    /// What [`Domain::from_host`] returns.
    pub open spec fn judged(
        raw: Seq<char>,
        host: Result<Seq<char>, HostFault>,
        r: Result<Domain, DomainError>,
    ) -> bool {
        match host {
            Err(HostFault::Address) => r matches Err(DomainError::IpAddress(e)) && e@ == raw,
            Err(_) => r matches Err(DomainError::NotAHost(e)) && e@ == raw,
            Ok(h) => {
                let name = without_root_dots(h);
                if !name.contains('.') {
                    r matches Err(DomainError::TooFewLabels(e)) && e@ == name
                } else if is_private_name(name) {
                    r matches Err(DomainError::NotPublic(e)) && e@ == name
                } else {
                    r matches Ok(d) && d@ == name
                }
            },
        }
    }

    /// What [`Domain::parse`] returns.
    pub open spec fn parsed(raw: Seq<char>, r: Result<Domain, DomainError>) -> bool {
        if bare(raw).len() == 0 {
            r matches Err(DomainError::Empty)
        } else if exists|i: int| 0 <= i < bare(raw).len() && is_url_syntax(#[trigger] bare(raw)[i]) {
            r matches Err(DomainError::NotAHost(e)) && e@ == raw
        } else {
            Domain::judged(raw, url_host(host_url(bare(raw))), r)
        }
    }

    /// What [`Domain::parse`] returns for a host in plain characters: its case
    /// makes no difference, and a domain is the host in lower case. An ordinary
    /// host is a domain unless it has one label only, is private or ends in a
    /// number.
    pub open spec fn parsed_plainly(raw: Seq<char>, r: Result<Domain, DomainError>) -> bool {
        let h = bare(raw);
        let name = text::ascii_lowered(h);
        is_plain(h) && h.len() > 0 ==> {
            &&& Domain::judged(raw, url_host(host_url(name)), r)
            &&& r matches Ok(d) ==> d@ == name
            &&& is_ordinary(h) ==> (r is Ok <==> name.contains('.') && !is_private_name(name)
                && !is_number_label(last_label(h)))
        }
    }

    /// Judges the host that was read in `raw`, without the root dots it may still
    /// have: two labels or more, and on the public internet.
    pub fn from_host(raw: &str, host: Result<String, HostFault>) -> (r: Result<Domain, DomainError>)
        ensures
            Domain::judged(
                raw@,
                match host {
                    Ok(h) => Ok(h@),
                    Err(f) => Err(f),
                },
                r,
            ),
    {
        match host {
            Err(HostFault::Address) => Err(DomainError::IpAddress(raw.to_owned())),
            Err(_) => Err(DomainError::NotAHost(raw.to_owned())),
            Ok(h) => {
                let chars = chars_of(h.as_str());
                let name = text_of(drop_root_dots(chars.as_slice()));
                let chars = chars_of(name.as_str());
                let at: usize = find(chars.as_slice(), '.');
                proof {
                    text::lemma_position_of(name@, '.');
                }
                if at == chars.len() {
                    return Err(DomainError::TooFewLabels(name));
                }
                if is_at_or_under(name.as_str(), "local") || is_at_or_under(
                    name.as_str(),
                    "internal",
                ) || is_at_or_under(name.as_str(), "localhost") || is_at_or_under(
                    name.as_str(),
                    "home.arpa",
                ) {
                    return Err(DomainError::NotPublic(name));
                }
                proof {
                    lemma_without_root_dots(h@);
                }
                Ok(Domain(name))
            },
        }
    }

    /// Normalise and validate.
    pub fn parse(raw: &str) -> (r: Result<Domain, DomainError>)
        ensures
            Domain::parsed(raw@, r),
            Domain::parsed_plainly(raw@, r),
    {
        let chars = chars_of(raw);
        let trimmed = trim(chars.as_slice());
        let host = drop_root_dots(trimmed);
        assert(host@ == bare(raw@));
        if host.len() == 0 {
            return Err(DomainError::Empty);
        }
        for i in 0..host.len()
            invariant
                host@ == bare(raw@),
                host@.len() > 0,
                forall|j: int| 0 <= j < i ==> !is_url_syntax(#[trigger] host@[j]),
        {
            let c = host[i];
            if c == '/' || c == '\\' || c == '@' || c == ':' || c == '?' || c == '#' || c == ' ' {
                assert(is_url_syntax(bare(raw@)[i as int]));
                return Err(DomainError::NotAHost(raw.to_owned()));
            }
        }
        let mut url = "https://".to_owned();
        url.append(text_of(host).as_str());
        url.append("/");
        let read = read_host(url.as_str());
        let r = Domain::from_host(raw, read);
        proof {
            let h = bare(raw@);
            assert(url@ == host_url(h));
            lemma_without_root_dots(text::trimmed(raw@));
            if is_plain(h) {
                lemma_plain_lowered(h);
            }
        }
        r
    }

    /// The normalised, punycoded, lowercased host.
    pub fn as_str(&self) -> (r: &str)
        ensures
            r@ == self@,
            self.valid(),
    {
        proof {
            use_type_invariant(self);
        }
        self.0.as_str()
    }

    /// True when this is `other` or sits underneath it, at a label boundary:
    /// `login.banking.example.com` is within `banking.example.com`, and
    /// `evilbanking.example.com` is not.
    pub fn is_within(&self, other: &Domain) -> (r: bool)
        ensures
            r == within(self@, other@),
    {
        is_at_or_under(self.0.as_str(), other.0.as_str())
    }

    /// Whether two domains are the same.
    pub fn same(&self, other: &Domain) -> (r: bool)
        ensures
            r == (self@ == other@),
    {
        same_text(self.0.as_str(), other.0.as_str())
    }
}

impl Clone for Domain {
    fn clone(&self) -> (r: Domain)
        ensures
            r == *self,
    {
        proof {
            use_type_invariant(self);
        }
        Domain(self.0.clone())
    }
}

impl FromStr for Domain {
    type Err = DomainError;

    fn from_str(s: &str) -> (r: Result<Self, Self::Err>)
        ensures
            Domain::parsed(s@, r),
            Domain::parsed_plainly(s@, r),
    {
        Domain::parse(s)
    }
}

impl Ordered for Domain {
    type Key = Seq<char>;

    open spec fn key(&self) -> Seq<char> {
        self@
    }

    open spec fn before(a: Seq<char>, b: Seq<char>) -> bool {
        text::text_before(a, b)
    }

    proof fn before_irreflexive(a: Seq<char>) {
        text::lemma_text_before_irreflexive(a);
    }

    proof fn before_transitive(a: Seq<char>, b: Seq<char>, c: Seq<char>) {
        text::lemma_text_before_transitive(a, b, c);
    }

    proof fn before_total(a: Seq<char>, b: Seq<char>) {
        text::lemma_text_before_total(a, b);
    }

    fn precedes(&self, other: &Self) -> (r: bool) {
        let r = comes_before(self.as_str(), other.as_str());
        assert(r == text::text_before(self.key(), other.key()));
        r
    }

    fn duplicate(&self) -> (r: Self) {
        self.clone()
    }
}

// ---------------------------------------------------------------------------
// Phone numbers
// ---------------------------------------------------------------------------

/// Why a string is not a usable [`E164`] or [`CallingCode`].
#[derive(Debug, Clone, Copy, PartialEq, Eq, Structural)]
pub enum PhoneError {
    MissingPlus,
    /// Not one to fifteen digits.
    Length(usize),
    NotADigit(char),
    LeadingZero,
    /// Not one to three digits.
    CallingCodeLength,
}

/// The digits of a phone number: one to fifteen, the first not zero.
pub open spec fn is_number(digits: Seq<char>) -> bool {
    &&& 1 <= digits.len() <= 15
    &&& text::drawn_from(digits, Charset::Digits)
    &&& digits[0] != '0'
}

/// A phone number in E.164 form: `+` followed by one to fifteen digits, no
/// separators.
///
/// The country a number belongs to is a function of the number, so it is
/// computed and never carried: see [`E164::starts_with`].
#[derive(Debug, PartialEq, Eq, PartialOrd, Ord, Hash)]
pub struct E164(String);

impl View for E164 {
    type V = Seq<char>;

    closed spec fn view(&self) -> Seq<char> {
        self.0@
    }
}

impl E164 {
    #[verifier::type_invariant]
    spec fn well_formed(self) -> bool {
        self.0@.len() > 0 && self.0@[0] == '+' && is_number(self.0@.skip(1))
    }

    /// What holds of every number there is.
    pub open spec fn valid(self) -> bool {
        self@.len() > 0 && self@[0] == '+' && is_number(self@.skip(1))
    }

    /// The digits without the leading `+`.
    pub open spec fn digits_spec(self) -> Seq<char> {
        self@.skip(1)
    }

    /// What keeps a raw text from being a number.
    pub open spec fn fault(raw: Seq<char>) -> Option<PhoneError> {
        let t = text::trimmed(raw);
        let digits = t.skip(1);
        if t.len() == 0 || t[0] != '+' {
            Some(PhoneError::MissingPlus)
        } else if let Some(bad) = text::first_outside(digits, Charset::Digits) {
            Some(PhoneError::NotADigit(bad))
        } else if digits.len() < 1 || digits.len() > 15 {
            Some(PhoneError::Length(digits.len() as usize))
        } else if digits[0] == '0' {
            Some(PhoneError::LeadingZero)
        } else {
            None
        }
    }

    /// Parse `+<digits>`. White space around the number is tolerated; anything
    /// inside it is not.
    pub fn parse(raw: &str) -> (r: Result<E164, PhoneError>)
        ensures
            match r {
                Ok(n) => E164::fault(raw@) is None && n@ == text::trimmed(raw@) && n.valid(),
                Err(e) => E164::fault(raw@) == Some(e),
            },
    {
        let chars = chars_of(raw);
        let t = trim(chars.as_slice());
        if t.len() == 0 || t[0] != '+' {
            return Err(PhoneError::MissingPlus);
        }
        let digits = slice_subrange(t, 1, t.len());
        assert(digits@ == t@.skip(1));
        if let Some(bad) = find_outside(digits, Charset::Digits) {
            return Err(PhoneError::NotADigit(bad));
        }
        if digits.len() < 1 || digits.len() > 15 {
            return Err(PhoneError::Length(digits.len()));
        }
        if digits[0] == '0' {
            return Err(PhoneError::LeadingZero);
        }
        Ok(E164(text_of(t)))
    }

    /// The number including its leading `+`.
    pub fn as_str(&self) -> (r: &str)
        ensures
            r@ == self@,
    {
        self.0.as_str()
    }

    /// The digits without the leading `+`.
    pub fn digits(&self) -> (r: &str)
        ensures
            r@ == self.digits_spec(),
            is_number(r@),
    {
        proof {
            use_type_invariant(self);
        }
        let s = self.0.as_str();
        s.substring_char(1, s.unicode_len())
    }

    /// Whether this number is routed by `code`. No calling code is a prefix of
    /// another, so the prefix is exactly the routing rule.
    pub fn starts_with(&self, code: CallingCode) -> (r: bool)
        ensures
            r == text::has_prefix(self.digits_spec(), decimal::decimal(code@ as nat)),
    {
        let prefix = decimal_text(code.as_u16() as u64);
        starts_with(
            chars_of(self.digits()).as_slice(),
            chars_of(prefix.as_str()).as_slice(),
        )
    }
}

impl Clone for E164 {
    fn clone(&self) -> (r: E164)
        ensures
            r == *self,
    {
        proof {
            use_type_invariant(self);
        }
        E164(self.0.clone())
    }
}

impl FromStr for E164 {
    type Err = PhoneError;

    fn from_str(s: &str) -> (r: Result<Self, Self::Err>)
        ensures
            match r {
                Ok(n) => E164::fault(s@) is None && n@ == text::trimmed(s@) && n.valid(),
                Err(e) => E164::fault(s@) == Some(e),
            },
    {
        E164::parse(s)
    }
}

/// An ITU country calling code: `86` for mainland China, `1` for the North
/// American plan.
#[derive(Debug, Clone, Copy, PartialEq, Eq, Structural, PartialOrd, Ord, Hash)]
pub struct CallingCode(u16);

impl View for CallingCode {
    type V = u16;

    closed spec fn view(&self) -> u16 {
        self.0
    }
}

impl CallingCode {
    #[verifier::type_invariant]
    spec fn well_formed(self) -> bool {
        1 <= self.0 <= 999
    }

    /// What keeps a raw text from being a calling code; a leading `+` is left
    /// aside.
    pub open spec fn fault(raw: Seq<char>) -> Option<PhoneError> {
        let digits = CallingCode::digits_of(raw);
        if let Some(bad) = text::first_outside(digits, Charset::Digits) {
            Some(PhoneError::NotADigit(bad))
        } else if digits.len() > 0 && digits[0] == '0' {
            Some(PhoneError::LeadingZero)
        } else if digits.len() == 0 || decimal::value_of(digits) > 999 {
            Some(PhoneError::CallingCodeLength)
        } else {
            None
        }
    }

    /// A raw text without white space around it and without one leading `+`.
    pub open spec fn digits_of(raw: Seq<char>) -> Seq<char> {
        let t = text::trimmed(raw);
        if t.len() > 0 && t[0] == '+' {
            t.skip(1)
        } else {
            t
        }
    }

    /// 1 to 999.
    pub fn new(code: u16) -> (r: Result<CallingCode, PhoneError>)
        ensures
            match r {
                Ok(c) => 1 <= code <= 999 && c@ == code,
                Err(e) => (code == 0 || code > 999) && e == PhoneError::CallingCodeLength,
            },
    {
        if code == 0 || code > 999 {
            return Err(PhoneError::CallingCodeLength);
        }
        Ok(CallingCode(code))
    }

    /// Parse `86` or `+86`.
    pub fn parse(raw: &str) -> (r: Result<CallingCode, PhoneError>)
        ensures
            match r {
                Ok(c) => CallingCode::fault(raw@) is None && c@ == decimal::value_of(
                    CallingCode::digits_of(raw@),
                ),
                Err(e) => CallingCode::fault(raw@) == Some(e),
            },
    {
        let chars = chars_of(raw);
        let t = trim(chars.as_slice());
        let digits = if t.len() > 0 && t[0] == '+' {
            slice_subrange(t, 1, t.len())
        } else {
            t
        };
        assert(digits@ == CallingCode::digits_of(raw@));
        if let Some(bad) = find_outside(digits, Charset::Digits) {
            return Err(PhoneError::NotADigit(bad));
        }
        if digits.len() == 0 {
            return Err(PhoneError::CallingCodeLength);
        }
        if digits[0] == '0' {
            return Err(PhoneError::LeadingZero);
        }
        proof {
            lemma_no_leading_zero(digits@);
        }
        match read_decimal(digits) {
            Some(v) => if v > 999 {
                Err(PhoneError::CallingCodeLength)
            } else {
                CallingCode::new(v as u16)
            },
            None => Err(PhoneError::CallingCodeLength),
        }
    }

    /// The code as a number.
    pub fn as_u16(self) -> (r: u16)
        ensures
            r == self@,
            1 <= r <= 999,
    {
        proof {
            use_type_invariant(&self);
        }
        self.0
    }

    /// The code with its `+`.
    pub fn to_text(self) -> (r: String)
        ensures
            r@ == seq!['+'] + decimal::decimal(self@ as nat),
    {
        let mut out = String::new();
        out.push('+');
        out.append(decimal_text(self.0 as u64).as_str());
        assert(out@ == seq!['+'] + decimal::decimal(self@ as nat));
        out
    }
}

/// Digits that do not start with zero stand for one or more.
proof fn lemma_no_leading_zero(s: Seq<char>)
    requires
        s.len() > 0,
        text::drawn_from(s, Charset::Digits),
        s[0] != '0',
    ensures
        decimal::value_of(s) >= 1,
{
    assert(Charset::Digits.admits(s[0]));
    decimal::lemma_value_of_prefix(s, 1);
    reveal_with_fuel(decimal::value_of, 2);
    assert(s.take(1).last() == s[0]);
}

impl FromStr for CallingCode {
    type Err = PhoneError;

    fn from_str(s: &str) -> (r: Result<Self, Self::Err>)
        ensures
            match r {
                Ok(c) => CallingCode::fault(s@) is None && c@ == decimal::value_of(
                    CallingCode::digits_of(s@),
                ),
                Err(e) => CallingCode::fault(s@) == Some(e),
            },
    {
        CallingCode::parse(s)
    }
}

impl Ordered for CallingCode {
    type Key = u16;

    open spec fn key(&self) -> u16 {
        self@
    }

    open spec fn before(a: u16, b: u16) -> bool {
        a < b
    }

    proof fn before_irreflexive(a: u16) {
    }

    proof fn before_transitive(a: u16, b: u16, c: u16) {
    }

    proof fn before_total(a: u16, b: u16) {
    }

    fn precedes(&self, other: &Self) -> (r: bool) {
        self.0 < other.0
    }

    fn duplicate(&self) -> (r: Self) {
        *self
    }
}

// ---------------------------------------------------------------------------
// Email
// ---------------------------------------------------------------------------

/// Why a string is not a usable [`EmailAddress`].
#[derive(Debug, Clone, PartialEq, Eq)]
pub enum EmailError {
    /// Not exactly one `@`.
    Shape,
    /// The local part is not one to 64 bytes.
    LocalLength,
    LocalCharset(char),
    /// The local part starts or ends with a dot, or has two in a row.
    LocalBoundary,
    Domain(DomainError),
}

/// A local part as it is stored: in lower case.
pub open spec fn is_mail_local(local: Seq<char>) -> bool {
    &&& 0 < local.len()
    &&& text::byte_len(local) <= 64
    &&& text::drawn_from(local, Charset::MailLocal)
    &&& forall|i: int| 0 <= i < local.len() ==> !text::is_upper(#[trigger] local[i])
    &&& local[0] != '.'
    &&& local.last() != '.'
    &&& !ids::has_double(local, '.')
}

/// `local@domain`, with the domain normalised as a [`Domain`].
#[derive(Debug, PartialEq, Eq, PartialOrd, Ord, Hash)]
pub struct EmailAddress {
    local: String,
    domain: Domain,
}

impl View for EmailAddress {
    type V = (Seq<char>, Seq<char>);

    closed spec fn view(&self) -> (Seq<char>, Seq<char>) {
        (self.local@, self.domain@)
    }
}

impl EmailAddress {
    #[verifier::type_invariant]
    spec fn well_formed(self) -> bool {
        is_mail_local(self.local@)
    }

    /// What [`EmailAddress::from_parts`] returns.
    pub open spec fn assembled(
        local: Seq<char>,
        domain: Result<Domain, DomainError>,
        r: Result<EmailAddress, EmailError>,
    ) -> bool {
        if local.len() == 0 || text::byte_len(local) > 64 {
            r matches Err(EmailError::LocalLength)
        } else if let Some(bad) = text::first_outside(local, Charset::MailLocal) {
            r matches Err(EmailError::LocalCharset(c)) && c == bad
        } else if local[0] == '.' || local.last() == '.' || ids::has_double(local, '.') {
            r matches Err(EmailError::LocalBoundary)
        } else {
            match domain {
                Err(e) => r matches Err(EmailError::Domain(f)) && f == e,
                Ok(d) => r matches Ok(a) && a@ == (
                    local.map_values(|c: char| text::ascii_lower(c)),
                    d@,
                ),
            }
        }
    }

    /// What [`EmailAddress::parse`] returns.
    pub open spec fn parsed(raw: Seq<char>, r: Result<EmailAddress, EmailError>) -> bool {
        let t = text::trimmed(raw);
        let at = text::position_of(t, '@') as int;
        let domain = t.skip(at + 1);
        if !t.contains('@') || domain.contains('@') {
            r matches Err(EmailError::Shape)
        } else {
            exists|d: Result<Domain, DomainError>| #[trigger]
                Domain::parsed(domain, d) && Domain::parsed_plainly(domain, d)
                    && EmailAddress::assembled(t.take(at), d, r)
        }
    }

    /// Puts a local part and a domain together, once the local part has
    /// passed.
    pub fn from_parts(local: &str, domain: Result<Domain, DomainError>) -> (r: Result<
        EmailAddress,
        EmailError,
    >)
        ensures
            EmailAddress::assembled(local@, domain, r),
    {
        let chars = chars_of(local);
        let l = chars.as_slice();
        if l.len() == 0 || bytes_in(local) > 64 {
            return Err(EmailError::LocalLength);
        }
        if let Some(bad) = find_outside(l, Charset::MailLocal) {
            return Err(EmailError::LocalCharset(bad));
        }
        if l[0] == '.' || l[l.len() - 1] == '.' || doubled(l, '.') {
            return Err(EmailError::LocalBoundary);
        }
        let mut lower = String::new();
        for i in 0..l.len()
            invariant
                lower@ == l@.take(i as int).map_values(|c: char| text::ascii_lower(c)),
        {
            lower.push(to_ascii_lower(l[i]));
            assert(lower@ == l@.take(i + 1).map_values(|c: char| text::ascii_lower(c)));
        }
        assert(l@.take(l@.len() as int) == l@);
        proof {
            lemma_lowered_local(l@);
        }
        match domain {
            Err(e) => Err(EmailError::Domain(e)),
            Ok(domain) => Ok(EmailAddress { local: lower, domain }),
        }
    }

    /// Narrower than RFC 5322: no quoted strings, no comments, no routing
    /// syntax. Anything an address parser could disagree about is rejected
    /// rather than interpreted.
    pub fn parse(raw: &str) -> (r: Result<EmailAddress, EmailError>)
        ensures
            EmailAddress::parsed(raw@, r),
    {
        let chars = chars_of(raw);
        let t = trim(chars.as_slice());
        let at: usize = find(t, '@');
        proof {
            text::lemma_position_of(t@, '@');
        }
        if at == t.len() {
            return Err(EmailError::Shape);
        }
        let domain = slice_subrange(t, at + 1, t.len());
        assert(domain@ == t@.skip(at + 1));
        let second: usize = find(domain, '@');
        proof {
            text::lemma_position_of(domain@, '@');
        }
        if second < domain.len() {
            return Err(EmailError::Shape);
        }
        let local = text_of(slice_subrange(t, 0, at));
        let host = text_of(domain);
        assert(local@ == t@.take(at as int));
        let d = Domain::parse(host.as_str());
        assert(Domain::parsed(domain@, d));
        EmailAddress::from_parts(local.as_str(), d)
    }

    /// The address of a handle at a domain. A handle is a local part as it
    /// stands.
    pub fn of_handle(handle: &Slug, domain: &Domain) -> (r: EmailAddress)
        ensures
            r@ == (handle@, domain@),
    {
        let local = handle.as_str();
        proof {
            text::lemma_first_outside(local@, Charset::Handle);
            text::lemma_drawn_from_is_ascii(local@, Charset::Handle);
            assert forall|i: int| 0 <= i < local@.len() implies Charset::MailLocal.admits(
                #[trigger] local@[i],
            ) && !text::is_upper(local@[i]) && local@[i] != '.' by {
                assert(Charset::Handle.admits(local@[i]));
            }
        }
        EmailAddress { local: local.to_owned(), domain: domain.clone() }
    }

    /// The part before the `@`.
    pub fn local(&self) -> (r: &str)
        ensures
            r@ == self@.0,
            is_mail_local(r@),
    {
        proof {
            use_type_invariant(self);
        }
        self.local.as_str()
    }

    /// The part after the `@`.
    pub fn domain(&self) -> (r: &Domain)
        ensures
            r@ == self@.1,
    {
        &self.domain
    }

    /// The address as text.
    pub fn to_text(&self) -> (r: String)
        ensures
            r@ == self@.0 + seq!['@'] + self@.1,
    {
        let mut out = self.local.clone();
        out.push('@');
        out.append(self.domain.as_str());
        assert(out@ == self@.0 + seq!['@'] + self@.1);
        out
    }
}

/// Lower case keeps a local part a local part.
proof fn lemma_lowered_local(l: Seq<char>)
    requires
        0 < l.len(),
        text::byte_len(l) <= 64,
        text::drawn_from(l, Charset::MailLocal),
        l[0] != '.',
        l.last() != '.',
        !ids::has_double(l, '.'),
    ensures
        is_mail_local(l.map_values(|c: char| text::ascii_lower(c))),
{
    let m = l.map_values(|c: char| text::ascii_lower(c));
    assert forall|i: int| 0 <= i < l.len() implies Charset::MailLocal.admits(#[trigger] m[i])
        && !text::is_upper(m[i]) && (m[i] == '.' <==> l[i] == '.') by {
        assert(Charset::MailLocal.admits(l[i]));
    }
    text::lemma_drawn_from_is_ascii(l, Charset::MailLocal);
    text::lemma_drawn_from_is_ascii(m, Charset::MailLocal);
    if ids::has_double(m, '.') {
        let i = choose|i: int| 0 <= i < m.len() - 1 && #[trigger] m[i] == '.' && m[i + 1] == '.';
        assert(l[i] == '.' && l[i + 1] == '.');
    }
}

impl Clone for EmailAddress {
    fn clone(&self) -> (r: EmailAddress)
        ensures
            r == *self,
    {
        proof {
            use_type_invariant(self);
        }
        EmailAddress { local: self.local.clone(), domain: self.domain.clone() }
    }
}

impl FromStr for EmailAddress {
    type Err = EmailError;

    fn from_str(s: &str) -> (r: Result<Self, Self::Err>)
        ensures
            EmailAddress::parsed(s@, r),
    {
        EmailAddress::parse(s)
    }
}

// ---------------------------------------------------------------------------
// Small supporting types
// ---------------------------------------------------------------------------

/// One tool on one MCP server.
#[derive(Debug, PartialEq, Eq, PartialOrd, Ord, Hash)]
pub struct McpTool {
    pub server: Slug,
    pub name: Slug,
}

impl View for McpTool {
    type V = (Seq<char>, Seq<char>);

    open spec fn view(&self) -> (Seq<char>, Seq<char>) {
        (self.server@, self.name@)
    }
}

impl McpTool {
    /// A tool from its two halves.
    pub fn new(server: Slug, name: Slug) -> (r: McpTool)
        ensures
            r.server == server,
            r.name == name,
    {
        McpTool { server, name }
    }

    /// `server/name`.
    pub fn to_text(&self) -> (r: String)
        ensures
            r@ == self@.0 + seq!['/'] + self@.1,
    {
        let mut out = self.server.as_str().to_owned();
        out.push('/');
        out.append(self.name.as_str());
        assert(out@ == self@.0 + seq!['/'] + self@.1);
        out
    }
}

impl Clone for McpTool {
    fn clone(&self) -> (r: McpTool)
        ensures
            r == *self,
    {
        McpTool { server: self.server.clone(), name: self.name.clone() }
    }
}

impl Ordered for McpTool {
    type Key = (Seq<char>, Seq<char>);

    open spec fn key(&self) -> (Seq<char>, Seq<char>) {
        self@
    }

    open spec fn before(a: (Seq<char>, Seq<char>), b: (Seq<char>, Seq<char>)) -> bool {
        text::text_before(a.0, b.0) || (a.0 == b.0 && text::text_before(a.1, b.1))
    }

    proof fn before_irreflexive(a: (Seq<char>, Seq<char>)) {
        text::lemma_text_before_irreflexive(a.0);
        text::lemma_text_before_irreflexive(a.1);
    }

    proof fn before_transitive(
        a: (Seq<char>, Seq<char>),
        b: (Seq<char>, Seq<char>),
        c: (Seq<char>, Seq<char>),
    ) {
        if text::text_before(a.0, b.0) && text::text_before(b.0, c.0) {
            text::lemma_text_before_transitive(a.0, b.0, c.0);
        }
        if text::text_before(a.1, b.1) && text::text_before(b.1, c.1) {
            text::lemma_text_before_transitive(a.1, b.1, c.1);
        }
    }

    proof fn before_total(a: (Seq<char>, Seq<char>), b: (Seq<char>, Seq<char>)) {
        if a.0 != b.0 {
            text::lemma_text_before_total(a.0, b.0);
        } else {
            text::lemma_text_before_total(a.1, b.1);
        }
    }

    fn precedes(&self, other: &Self) -> (r: bool) {
        self.server.precedes(&other.server) || (self.server.same(&other.server)
            && self.name.precedes(&other.name))
    }

    fn duplicate(&self) -> (r: Self) {
        self.clone()
    }
}

/// What a delete request covers. Erasing one thread and erasing an employee's
/// entire history are different risks, so they are different values.
#[derive(Debug, Clone, Copy, PartialEq, Eq, Structural, Hash)]
pub enum DataScope {
    Conversation { id: ConversationId },
    AllForEmployee { id: EmployeeId },
}

/// The principal on whose behalf the action would run, from the authenticated
/// session and never from the model.
#[derive(Debug, Clone, Copy, PartialEq, Eq, Structural, Hash)]
pub struct Actor {
    pub tenant_id: TenantId,
    pub employee_id: EmployeeId,
}

impl Actor {
    /// A principal from its two ids.
    pub fn new(tenant_id: TenantId, employee_id: EmployeeId) -> (r: Actor)
        ensures
            r == (Actor { tenant_id, employee_id }),
    {
        Actor { tenant_id, employee_id }
    }
}

/// Whether the counterparty is someone this employee has dealt with before.
#[derive(Debug, Clone, Copy, PartialEq, Eq, Structural, Hash)]
pub enum ContactStanding {
    Known,
    New,
}

/// How much damage an action does if it turns out to have been steered by an
/// attacker. `High` means irreversible, expensive, or both.
#[derive(Debug, Clone, Copy, PartialEq, Eq, Structural, Hash)]
pub enum Risk {
    Low,
    High,
}

impl Risk {
    /// Whether this is [`Risk::High`].
    pub fn is_high(self) -> (r: bool)
        ensures
            r == (self == Risk::High),
    {
        matches!(self, Risk::High)
    }
}

// ---------------------------------------------------------------------------
// Action
// ---------------------------------------------------------------------------

/// The discriminant of an [`Action`], with no payload.
#[derive(Debug, Clone, Copy, PartialEq, Eq, Structural, PartialOrd, Ord, Hash)]
pub enum ActionKind {
    EmailSend,
    SmsSend,
    WhatsappSend,
    CallPlace,
    BrowserRead,
    BrowserWrite,
    FileUpload,
    McpCall,
    A2aSend,
    PaymentCreate,
    InvoiceIssue,
    ContractSign,
    CredentialChange,
    DataDelete,
    CharterSet,
    InternalSend,
    AppointmentBook,
}

impl ActionKind {
    /// Every discriminant.
    pub const ALL: [ActionKind; 17] = [
        ActionKind::EmailSend,
        ActionKind::SmsSend,
        ActionKind::WhatsappSend,
        ActionKind::CallPlace,
        ActionKind::BrowserRead,
        ActionKind::BrowserWrite,
        ActionKind::FileUpload,
        ActionKind::McpCall,
        ActionKind::A2aSend,
        ActionKind::PaymentCreate,
        ActionKind::InvoiceIssue,
        ActionKind::ContractSign,
        ActionKind::CredentialChange,
        ActionKind::DataDelete,
        ActionKind::CharterSet,
        ActionKind::InternalSend,
        ActionKind::AppointmentBook,
    ];

    /// The metric label of a kind.
    pub open spec fn label(self) -> Seq<char> {
        match self {
            ActionKind::EmailSend => "email_send"@,
            ActionKind::SmsSend => "sms_send"@,
            ActionKind::WhatsappSend => "whatsapp_send"@,
            ActionKind::CallPlace => "call_place"@,
            ActionKind::BrowserRead => "browser_read"@,
            ActionKind::BrowserWrite => "browser_write"@,
            ActionKind::FileUpload => "file_upload"@,
            ActionKind::McpCall => "mcp_call"@,
            ActionKind::A2aSend => "a2a_send"@,
            ActionKind::PaymentCreate => "payment_create"@,
            ActionKind::InvoiceIssue => "invoice_issue"@,
            ActionKind::ContractSign => "contract_sign"@,
            ActionKind::CredentialChange => "credential_change"@,
            ActionKind::DataDelete => "data_delete"@,
            ActionKind::CharterSet => "charter_set"@,
            ActionKind::InternalSend => "internal_send"@,
            ActionKind::AppointmentBook => "appointment_book"@,
        }
    }

    /// Stable metric label.
    pub fn as_str(self) -> (r: &'static str)
        ensures
            r@ == self.label(),
    {
        match self {
            ActionKind::EmailSend => "email_send",
            ActionKind::SmsSend => "sms_send",
            ActionKind::WhatsappSend => "whatsapp_send",
            ActionKind::CallPlace => "call_place",
            ActionKind::BrowserRead => "browser_read",
            ActionKind::BrowserWrite => "browser_write",
            ActionKind::FileUpload => "file_upload",
            ActionKind::McpCall => "mcp_call",
            ActionKind::A2aSend => "a2a_send",
            ActionKind::PaymentCreate => "payment_create",
            ActionKind::InvoiceIssue => "invoice_issue",
            ActionKind::ContractSign => "contract_sign",
            ActionKind::CredentialChange => "credential_change",
            ActionKind::DataDelete => "data_delete",
            ActionKind::CharterSet => "charter_set",
            ActionKind::InternalSend => "internal_send",
            ActionKind::AppointmentBook => "appointment_book",
        }
    }
}

/// Every side effect the system can perform. Closed on purpose: if it is not
/// in here, no executor can be asked to do it.
///
/// Each variant carries the parsed subject of the effect and nothing else. The
/// payee of a payment and the title of a contract are read by no rule; they
/// are here because an approval covers the whole action, and a human reads
/// them in it.
#[derive(Debug, Clone, PartialEq, Eq)]
pub enum Action {
    EmailSend { to: EmailAddress },
    SmsSend { to: E164 },
    WhatsappSend { to: E164 },
    /// The destination country is derived from `to`.
    CallPlace { to: E164 },
    BrowserRead { domain: Domain },
    BrowserWrite { domain: Domain },
    FileUpload { domain: Domain },
    McpCall { tool: McpTool },
    A2aSend { peer: Domain },
    /// Money out: how much and to whom.
    PaymentCreate {
        amount: Money,
        /// Where the money goes, as the payment provider identifies an
        /// account.
        payee: String,
    },
    /// Ask a customer to pay us.
    InvoiceIssue { amount: Money },
    ContractSign { title: String },
    CredentialChange { secret: SecretRef },
    DataDelete { scope: DataScope },
    /// One employee writing another employee's standing objective.
    CharterSet { subordinate: EmployeeId },
    /// Say something to a colleague.
    InternalSend { to: Slug },
    /// Undertake one moment of your own time. The subject is the acting
    /// employee, who is in the context and never in an action.
    AppointmentBook {},
}

impl Action {
    /// Every discriminant.
    pub const ALL_DISCRIMINANTS: [ActionKind; 17] = ActionKind::ALL;

    /// Which discriminant this is.
    pub open spec fn kind_spec(&self) -> ActionKind {
        match self {
            Action::EmailSend { .. } => ActionKind::EmailSend,
            Action::SmsSend { .. } => ActionKind::SmsSend,
            Action::WhatsappSend { .. } => ActionKind::WhatsappSend,
            Action::CallPlace { .. } => ActionKind::CallPlace,
            Action::BrowserRead { .. } => ActionKind::BrowserRead,
            Action::BrowserWrite { .. } => ActionKind::BrowserWrite,
            Action::FileUpload { .. } => ActionKind::FileUpload,
            Action::McpCall { .. } => ActionKind::McpCall,
            Action::A2aSend { .. } => ActionKind::A2aSend,
            Action::PaymentCreate { .. } => ActionKind::PaymentCreate,
            Action::InvoiceIssue { .. } => ActionKind::InvoiceIssue,
            Action::ContractSign { .. } => ActionKind::ContractSign,
            Action::CredentialChange { .. } => ActionKind::CredentialChange,
            Action::DataDelete { .. } => ActionKind::DataDelete,
            Action::CharterSet { .. } => ActionKind::CharterSet,
            Action::InternalSend { .. } => ActionKind::InternalSend,
            Action::AppointmentBook {} => ActionKind::AppointmentBook,
        }
    }

    /// The blast radius of a kind of action.
    pub open spec fn risk_spec(&self) -> Risk {
        match self.kind_spec() {
            ActionKind::FileUpload
            | ActionKind::PaymentCreate
            | ActionKind::InvoiceIssue
            | ActionKind::ContractSign
            | ActionKind::CredentialChange
            | ActionKind::DataDelete
            | ActionKind::CharterSet => Risk::High,
            _ => Risk::Low,
        }
    }

    /// Which discriminant this is.
    pub fn kind(&self) -> (r: ActionKind)
        ensures
            r == self.kind_spec(),
    {
        match self {
            Action::EmailSend { .. } => ActionKind::EmailSend,
            Action::SmsSend { .. } => ActionKind::SmsSend,
            Action::WhatsappSend { .. } => ActionKind::WhatsappSend,
            Action::CallPlace { .. } => ActionKind::CallPlace,
            Action::BrowserRead { .. } => ActionKind::BrowserRead,
            Action::BrowserWrite { .. } => ActionKind::BrowserWrite,
            Action::FileUpload { .. } => ActionKind::FileUpload,
            Action::McpCall { .. } => ActionKind::McpCall,
            Action::A2aSend { .. } => ActionKind::A2aSend,
            Action::PaymentCreate { .. } => ActionKind::PaymentCreate,
            Action::InvoiceIssue { .. } => ActionKind::InvoiceIssue,
            Action::ContractSign { .. } => ActionKind::ContractSign,
            Action::CredentialChange { .. } => ActionKind::CredentialChange,
            Action::DataDelete { .. } => ActionKind::DataDelete,
            Action::CharterSet { .. } => ActionKind::CharterSet,
            Action::InternalSend { .. } => ActionKind::InternalSend,
            Action::AppointmentBook {} => ActionKind::AppointmentBook,
        }
    }

    /// Blast radius. A high one is never allowed on the strength of untrusted
    /// input.
    pub fn risk(&self) -> (r: Risk)
        ensures
            r == self.risk_spec(),
    {
        match self {
            Action::EmailSend { .. }
            | Action::SmsSend { .. }
            | Action::WhatsappSend { .. }
            | Action::CallPlace { .. }
            | Action::BrowserRead { .. }
            | Action::BrowserWrite { .. }
            | Action::McpCall { .. }
            | Action::A2aSend { .. }
            | Action::InternalSend { .. }
            | Action::AppointmentBook {} => Risk::Low,
            Action::FileUpload { .. }
            | Action::PaymentCreate { .. }
            | Action::InvoiceIssue { .. }
            | Action::ContractSign { .. }
            | Action::CredentialChange { .. }
            | Action::DataDelete { .. }
            | Action::CharterSet { .. } => Risk::High,
        }
    }
}

/// [`ActionKind::ALL`] has every kind, each once, and no two kinds share a
/// label.
pub proof fn law_kinds_are_enumerated(a: ActionKind, b: ActionKind)
    ensures
        exists|i: int| 0 <= i < 17 && #[trigger] ActionKind::ALL[i] == a,
        forall|i: int, j: int|
            0 <= i < j < 17 ==> #[trigger] ActionKind::ALL[i] != #[trigger] ActionKind::ALL[j],
        a.label() == b.label() ==> a == b,
{
    let i: int = match a {
        ActionKind::EmailSend => 0,
        ActionKind::SmsSend => 1,
        ActionKind::WhatsappSend => 2,
        ActionKind::CallPlace => 3,
        ActionKind::BrowserRead => 4,
        ActionKind::BrowserWrite => 5,
        ActionKind::FileUpload => 6,
        ActionKind::McpCall => 7,
        ActionKind::A2aSend => 8,
        ActionKind::PaymentCreate => 9,
        ActionKind::InvoiceIssue => 10,
        ActionKind::ContractSign => 11,
        ActionKind::CredentialChange => 12,
        ActionKind::DataDelete => 13,
        ActionKind::CharterSet => 14,
        ActionKind::InternalSend => 15,
        ActionKind::AppointmentBook => 16,
    };
    assert(ActionKind::ALL[i] == a);
    lemma_labels_differ(a, b);
}

proof fn lemma_labels_differ(a: ActionKind, b: ActionKind)
    ensures
        a.label() == b.label() ==> a == b,
{
    reveal_strlit("email_send");
    reveal_strlit("sms_send");
    reveal_strlit("whatsapp_send");
    reveal_strlit("call_place");
    reveal_strlit("browser_read");
    reveal_strlit("browser_write");
    reveal_strlit("file_upload");
    reveal_strlit("mcp_call");
    reveal_strlit("a2a_send");
    reveal_strlit("payment_create");
    reveal_strlit("invoice_issue");
    reveal_strlit("contract_sign");
    reveal_strlit("credential_change");
    reveal_strlit("data_delete");
    reveal_strlit("charter_set");
    reveal_strlit("internal_send");
    reveal_strlit("appointment_book");
    let x = a.label();
    let y = b.label();
    if x == y {
        assert(x.len() == y.len() && x[0] == y[0] && x[1] == y[1] && x[2] == y[2] && x.last()
            == y.last());
    }
}

/// Everything a ruling needs that the [`Action`] itself does not carry.
///
/// Assembled by the host from the session, the ledger and the contact book.
#[derive(Debug, Clone, Copy, PartialEq, Eq)]
pub struct ActionCtx {
    /// Who is acting.
    pub actor: Actor,
    /// Provenance of the input that produced the action.
    pub trust: TrustLabel,
    /// Whether the counterparty is already known to this employee.
    pub contact: ContactStanding,
    /// Spend already booked today. `None` means nothing has been spent.
    pub spent_today: Option<Money>,
    /// New counterparties contacted today.
    pub new_contacts_today: u32,
    /// Whether the employee this action is aimed at reports to the actor, as
    /// the org chart says right now. It says who may be directed, never what
    /// may be done.
    pub directs_subject: bool,
    /// The decision instant.
    pub now: Timestamp,
}

impl ActionCtx {
    /// The safest context.
    pub open spec fn safest(actor: Actor, now: Timestamp) -> ActionCtx {
        ActionCtx {
            actor,
            trust: TrustLabel::Untrusted,
            contact: ContactStanding::New,
            spent_today: None,
            new_contacts_today: 0,
            directs_subject: false,
            now,
        }
    }

    /// The safest context: untrusted input, unknown counterparty, no history,
    /// no authority over anybody. Callers widen from here as they learn more.
    pub fn new(actor: Actor, now: Timestamp) -> (r: ActionCtx)
        ensures
            r == ActionCtx::safest(actor, now),
            r == (ActionCtx {
                actor,
                trust: TrustLabel::Untrusted,
                contact: ContactStanding::New,
                spent_today: None,
                new_contacts_today: 0,
                directs_subject: false,
                now,
            }),
    {
        ActionCtx {
            actor,
            trust: TrustLabel::Untrusted,
            contact: ContactStanding::New,
            spent_today: None,
            new_contacts_today: 0,
            directs_subject: false,
            now,
        }
    }
}

// ---------------------------------------------------------------------------
// Laws of names
// ---------------------------------------------------------------------------

/// What sits underneath a name that sits underneath a third sits underneath
/// the third.
pub proof fn law_within_is_transitive(a: Seq<char>, b: Seq<char>, c: Seq<char>)
    requires
        within(a, b),
        within(b, c),
    ensures
        within(a, c),
{
    if a != b && b != c {
        let db = seq!['.'] + b;
        let dc = seq!['.'] + c;
        assert(a.skip(a.len() - db.len()) == db);
        assert(b.skip(b.len() - dc.len()) == dc);
        assert(a.len() >= dc.len());
        assert(a.skip(a.len() - dc.len()) =~= dc) by {
            assert forall|i: int| 0 <= i < dc.len() implies a[a.len() - dc.len() + i] == dc[i] by {
                let j = db.len() - dc.len() + i;
                assert(db[j] == a.skip(a.len() - db.len())[j]);
                assert(db[j] == b[j - 1]);
                assert(b.skip(b.len() - dc.len())[i] == dc[i]);
            }
        }
    }
}

/// A name is underneath another only past a dot: what merely ends in the same
/// letters is outside.
pub proof fn law_within_stops_at_labels(prefix: Seq<char>, b: Seq<char>)
    requires
        prefix.len() > 0,
        prefix.last() != '.',
    ensures
        !within(prefix + b, b),
{
    let a = prefix + b;
    let db = seq!['.'] + b;
    if text::has_suffix(a, db) {
        assert(a.skip(a.len() - db.len())[0] == db[0]);
        assert(a[prefix.len() - 1] == prefix.last());
    }
}

/// Respellings of a plain host by case, outer white space or root dots are one
/// domain, or none of them is a domain.
pub proof fn law_respellings_are_one_domain(
    a: Seq<char>,
    first: Result<Domain, DomainError>,
    b: Seq<char>,
    second: Result<Domain, DomainError>,
)
    requires
        Domain::parsed(a, first),
        Domain::parsed_plainly(a, first),
        Domain::parsed(b, second),
        Domain::parsed_plainly(b, second),
        is_plain(bare(a)),
        is_plain(bare(b)),
        text::ascii_lowered(bare(a)) == text::ascii_lowered(bare(b)),
    ensures
        first is Ok <==> second is Ok,
        first is Ok ==> first->Ok_0@ == second->Ok_0@,
{
    assert(text::ascii_lowered(bare(a)).len() == bare(a).len());
    assert(text::ascii_lowered(bare(b)).len() == bare(b).len());
}

/// A domain is its own text: what was read from a plain host is read again from
/// the domain's text, as the same domain.
pub proof fn law_a_domain_reads_back(
    raw: Seq<char>,
    d: Domain,
    again: Result<Domain, DomainError>,
)
    requires
        is_plain(bare(raw)),
        Domain::parsed(raw, Ok(d)),
        Domain::parsed_plainly(raw, Ok(d)),
        Domain::parsed(d@, again),
        Domain::parsed_plainly(d@, again),
    ensures
        again is Ok,
        again->Ok_0@ == d@,
{
    let h = bare(raw);
    lemma_without_root_dots(text::trimmed(raw));
    lemma_plain_lowered(h);
    assert(bare(d@) == d@);
    law_respellings_are_one_domain(raw, Ok(d), d@, again);
}

/// A plain host that is empty, has one label, ends in a number or is private is
/// never a domain.
pub proof fn law_some_hosts_are_no_domain(raw: Seq<char>, r: Result<Domain, DomainError>)
    requires
        Domain::parsed(raw, r),
        Domain::parsed_plainly(raw, r),
        is_plain(bare(raw)),
        ({
            let name = text::ascii_lowered(bare(raw));
            ||| name.len() == 0
            ||| !name.contains('.')
            ||| is_private_name(name)
            ||| is_ordinary(bare(raw)) && is_number_label(last_label(bare(raw)))
        }),
    ensures
        r is Err,
{
    lemma_plain_lowered(bare(raw));
    lemma_without_root_dots(text::trimmed(raw));
}

/// A root dot after a host changes nothing about what it is judged by.
pub proof fn law_root_dot_is_ignored(raw: Seq<char>)
    requires
        raw.len() > 0,
        !text::is_white_space(raw[0]),
        !text::is_white_space(raw.last()),
    ensures
        bare(raw.push('.')) == bare(raw),
{
    text::lemma_trimmed_fixpoint(raw);
    text::lemma_trimmed_fixpoint(raw.push('.'));
    assert(raw.push('.').drop_last() == raw);
}

/// A phone number is a plus sign and from one to fifteen digits, the first of them
/// not a zero.
pub proof fn law_a_number_is_a_plus_and_digits(raw: Seq<char>)
    ensures
        ({
            let t = text::trimmed(raw);
            E164::fault(raw) is None <==> {
                &&& 2 <= t.len() <= 16
                &&& t[0] == '+'
                &&& t[1] != '0'
                &&& forall|i: int| 1 <= i < t.len() ==> '0' <= #[trigger] t[i] && t[i] <= '9'
            }
        }),
{
    let t = text::trimmed(raw);
    let digits = t.skip(1);
    if t.len() > 0 {
        text::lemma_first_outside(digits, Charset::Digits);
        if text::drawn_from(digits, Charset::Digits) {
            assert forall|i: int| 1 <= i < t.len() implies '0' <= #[trigger] t[i] && t[i]
                <= '9' by {
                assert(Charset::Digits.admits(digits[i - 1]));
            }
        }
        if forall|i: int| 1 <= i < t.len() ==> '0' <= #[trigger] t[i] && t[i] <= '9' {
            assert forall|i: int| 0 <= i < digits.len() implies Charset::Digits.admits(
                #[trigger] digits[i],
            ) by {
                assert(digits[i] == t[i + 1]);
            }
        }
    }
}

/// A calling code is written in digits without a leading zero and stands for a number
/// from one to nine hundred and ninety-nine, with or without a plus sign.
pub proof fn law_a_calling_code_is_a_small_number(digits: Seq<char>)
    requires
        text::trimmed(digits) == digits,
        text::trimmed(seq!['+'] + digits) == seq!['+'] + digits,
        digits.len() > 0 ==> digits[0] != '+',
    ensures
        CallingCode::fault(digits) == CallingCode::fault(seq!['+'] + digits),
        CallingCode::fault(digits) is None <==> {
            &&& digits.len() > 0
            &&& digits[0] != '0'
            &&& text::drawn_from(digits, Charset::Digits)
            &&& decimal::value_of(digits) < 1000
        },
{
    assert((seq!['+'] + digits).skip(1) =~= digits);
    text::lemma_first_outside(digits, Charset::Digits);
}

/// An address has a local part of one to sixty-four plain characters, without a dot
/// at an end or beside another, and a domain; its local part is kept in lower case.
pub proof fn law_an_address_is_a_plain_name_at_a_domain(
    local: Seq<char>,
    domain: Result<Domain, DomainError>,
    r: Result<EmailAddress, EmailError>,
)
    requires
        EmailAddress::assembled(local, domain, r),
    ensures
        r is Ok <==> {
            &&& domain is Ok
            &&& 1 <= local.len() <= 64
            &&& text::drawn_from(local, Charset::MailLocal)
            &&& local[0] != '.'
            &&& local.last() != '.'
            &&& forall|i: int| 0 <= i < local.len() - 1 && #[trigger] local[i] == '.' ==> local[i
                + 1] != '.'
        },
        r matches Ok(a) ==> a@.1 == domain->Ok_0@ && a@.0.len() == local.len() && forall|i: int|
            0 <= i < local.len() ==> #[trigger] a@.0[i] == text::ascii_lower(local[i]),
        r matches Err(EmailError::Domain(e)) ==> domain == Err::<Domain, DomainError>(e),
{
    text::lemma_first_outside(local, Charset::MailLocal);
    if text::drawn_from(local, Charset::MailLocal) {
        text::lemma_drawn_from_is_ascii(local, Charset::MailLocal);
    }
}

/// A host that was read is a domain exactly where it has two labels or more and does
/// not end in a name that is never public; an address is told apart from what is no
/// host.
pub proof fn law_a_domain_is_a_public_name(
    raw: Seq<char>,
    host: Result<Seq<char>, HostFault>,
    r: Result<Domain, DomainError>,
)
    requires
        Domain::judged(raw, host, r),
    ensures
        r is Ok <==> host is Ok && without_root_dots(host->Ok_0).contains('.') && !within(
            without_root_dots(host->Ok_0),
            "local"@,
        ) && !within(without_root_dots(host->Ok_0), "internal"@) && !within(
            without_root_dots(host->Ok_0),
            "localhost"@,
        ) && !within(without_root_dots(host->Ok_0), "home.arpa"@),
        r matches Ok(d) ==> d@ == without_root_dots(host->Ok_0),
        host == Err::<Seq<char>, HostFault>(HostFault::Address) <==> r is Err
            && r->Err_0 is IpAddress,
{
}

/// A name is within another exactly where it is that name, or that name with
/// something and a dot before it.
pub proof fn law_within_is_at_or_underneath(a: Seq<char>, b: Seq<char>)
    ensures
        within(a, b) <==> a == b || exists|before: Seq<char>|
            a == #[trigger] (before + seq!['.'] + b),
{
    let dotted = seq!['.'] + b;
    if within(a, b) && a != b {
        let before = a.take(a.len() - dotted.len());
        assert(a.skip(a.len() - dotted.len()) == dotted);
        assert(a =~= before + dotted);
        assert(a =~= before + seq!['.'] + b);
    }
    if exists|before: Seq<char>| a == #[trigger] (before + seq!['.'] + b) {
        let before = choose|before: Seq<char>| a == #[trigger] (before + seq!['.'] + b);
        assert(a.skip(a.len() - dotted.len()) =~= dotted);
    }
}

/// An action is high-risk exactly where it uploads, pays, bills, signs, changes
/// credentials, deletes or directs.
pub proof fn law_risk_is_about_what_cannot_be_taken_back(a: Action)
    ensures
        a.risk_spec() is High <==> a is FileUpload || a is PaymentCreate || a is InvoiceIssue
            || a is ContractSign || a is CredentialChange || a is DataDelete || a is CharterSet,
{
}

/// A text that holds a piece of URL syntax is no domain.
pub proof fn law_url_syntax_is_no_domain(raw: Seq<char>, r: Result<Domain, DomainError>, i: int)
    requires
        Domain::parsed(raw, r),
        0 <= i < bare(raw).len(),
        bare(raw)[i] == '/' || bare(raw)[i] == '\\' || bare(raw)[i] == '@' || bare(raw)[i] == ':'
            || bare(raw)[i] == '?' || bare(raw)[i] == '#' || bare(raw)[i] == ' ',
    ensures
        r matches Err(DomainError::NotAHost(e)) && e@ == raw,
{
    assert(is_url_syntax(bare(raw)[i]));
}

/// An address that was read is one at sign with a local part before it and a domain
/// after it, and a text with none or two of them is told so.
pub proof fn law_an_address_has_one_at_sign(raw: Seq<char>, r: Result<EmailAddress, EmailError>)
    requires
        EmailAddress::parsed(raw, r),
    ensures
        (r is Err && r->Err_0 is Shape) <==> !exists|local: Seq<char>, domain: Seq<char>|
            {
                &&& text::trimmed(raw) == #[trigger] (local + seq!['@'] + domain)
                &&& !local.contains('@')
                &&& !domain.contains('@')
            },
{
    let t = text::trimmed(raw);
    let at = text::position_of(t, '@') as int;
    text::lemma_position_of(t, '@');
    if t.contains('@') && !t.skip(at + 1).contains('@') {
        let (local, domain) = (t.take(at), t.skip(at + 1));
        assert(t =~= local + seq!['@'] + domain);
        assert(!local.contains('@'));
    }
    if exists|local: Seq<char>, domain: Seq<char>|
        {
            &&& t == #[trigger] (local + seq!['@'] + domain)
            &&& !local.contains('@')
            &&& !domain.contains('@')
        } {
        let (local, domain) = choose|local: Seq<char>, domain: Seq<char>|
            {
                &&& t == #[trigger] (local + seq!['@'] + domain)
                &&& !local.contains('@')
                &&& !domain.contains('@')
            };
        assert(t[local.len() as int] == '@');
        assert forall|j: int| 0 <= j < local.len() implies #[trigger] t[j] != '@' by {
            assert(t[j] == local[j]);
            assert(local.contains(local[j]));
        }
        text::lemma_position_is(t, '@', local.len() as int);
        assert(t.skip(at + 1) =~= domain);
        assert(t.contains('@'));
    }
}

} // verus!
