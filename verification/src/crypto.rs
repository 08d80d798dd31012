//! Identities, fingerprints and the two certificate checks.
//!
//! qsh deliberately does not use a public PKI. Both ends hold a long-lived
//! self-signed Ed25519 certificate:
//!
//! * the client pins the server's public key (`known_hosts`),
//! * the server authorises individual client public keys and maps them to a
//!   local Unix user (`authorized/`).
//!
//! Both directions additionally enforce the certificate's validity window, so
//! an expired certificate stops working on its own.

use vstd::prelude::*;
use vstd::utf8::{encode_utf8, is_ascii_chars_encode_utf8};

use rcgen::{CertificateParams, DnType, ExtendedKeyUsagePurpose, KeyPair, KeyUsagePurpose};
use rustls::pki_types::PrivateKeyDer;
use sha2::{Digest, Sha256};
use time::OffsetDateTime;
use x509_parser::prelude::{ASN1Time, FromDer, X509Certificate};

use crate::clock::read_clock;
use crate::text::{
    copy_texts, decimal, decimal_text, digit_char, lower, lowercase, strip_prefix, texts,
    without_prefix,
};

verus! {

// ---------------------------------------------------------------------------
// Fingerprints
// ---------------------------------------------------------------------------

/// A public key fingerprint: SHA-256 over the certificate's
/// `SubjectPublicKeyInfo`. Stable across certificate renewals of the same key.
#[derive(Debug, Clone, Copy, PartialEq, Eq, Hash, PartialOrd, Ord)]
pub struct Fingerprint(pub [u8; 32]);

/// Why a text is not a fingerprint.
#[derive(Debug, Clone, Copy, PartialEq, Eq, Structural)]
pub enum FingerprintError {
    /// It does not start with `sha256:`.
    NoPrefix,
    /// The digest is not 64 bytes long.
    WrongLength,
    /// The digest holds something else than hexadecimal digits.
    NotHex,
}

impl FingerprintError {
    /// What the error says.
    pub open spec fn text(&self) -> Seq<char> {
        match *self {
            FingerprintError::NoPrefix => "fingerprint must start with `sha256:`"@,
            FingerprintError::WrongLength => "fingerprint must be 64 hex characters"@,
            FingerprintError::NotHex => "fingerprint contains non-hex characters"@,
        }
    }

    /// What the error says.
    pub fn message(&self) -> (out: String)
        ensures
            out@ == self.text(),
    {
        match self {
            FingerprintError::NoPrefix => "fingerprint must start with `sha256:`".to_owned(),
            FingerprintError::WrongLength => "fingerprint must be 64 hex characters".to_owned(),
            FingerprintError::NotHex => "fingerprint contains non-hex characters".to_owned(),
        }
    }
}

/// The lower-case hexadecimal digit of `v`.
pub open spec fn hex_char(v: int) -> char {
    if v < 10 {
        ('0' as u32 + v) as char
    } else {
        ('a' as u32 + (v - 10)) as char
    }
}

/// The value of a hexadecimal digit in either case.
pub open spec fn hex_value(b: u8) -> Option<int> {
    if 48 <= b <= 57 {
        Some(b - 48)
    } else if 97 <= b <= 102 {
        Some(b - 97 + 10)
    } else if 65 <= b <= 70 {
        Some(b - 65 + 10)
    } else {
        None
    }
}

/// Two lower-case hexadecimal digits for each byte.
pub open spec fn hex(bytes: Seq<u8>) -> Seq<char> {
    Seq::new(
        2 * bytes.len(),
        |i: int|
            hex_char(
                if i % 2 == 0 {
                    bytes[i / 2] as int / 16
                } else {
                    bytes[i / 2] as int % 16
                },
            ),
    )
}

/// The bytes that the 64 hexadecimal digits of a fingerprint write.
pub open spec fn unhex(digits: Seq<u8>) -> Seq<u8> {
    Seq::new(
        32,
        |i: int| (hex_value(digits[2 * i])->0 * 16 + hex_value(digits[2 * i + 1])->0) as u8,
    )
}

/// What the text `s` is as a fingerprint.
pub open spec fn parsed_fingerprint(s: Seq<char>) -> Result<Seq<u8>, FingerprintError> {
    match without_prefix(s, "sha256:"@) {
        None => Err(FingerprintError::NoPrefix),
        Some(rest) => {
            let digits = encode_utf8(rest);
            if digits.len() != 64 {
                Err(FingerprintError::WrongLength)
            } else if exists|i: int| 0 <= i < 64 && hex_value(#[trigger] digits[i]) is None {
                Err(FingerprintError::NotHex)
            } else {
                Ok(unhex(digits))
            }
        },
    }
}

fn hex_digit(b: u8) -> (r: Option<u8>)
    ensures
        match r {
            Some(v) => hex_value(b) == Some(v as int) && v < 16,
            None => hex_value(b) is None,
        },
{
    if 48 <= b && b <= 57 {
        Some(b - 48)
    } else if 97 <= b && b <= 102 {
        Some(b - 97 + 10)
    } else if 65 <= b && b <= 70 {
        Some(b - 65 + 10)
    } else {
        None
    }
}

impl Fingerprint {
    /// The `sha256:<hex>` textual form.
    pub open spec fn text(&self) -> Seq<char> {
        "sha256:"@ + hex(self.0@)
    }

    /// Compute the fingerprint of a DER-encoded certificate. Fails if the bytes
    /// are not a parseable X.509 certificate.
    pub fn of_cert(der: &[u8]) -> (r: Result<Fingerprint, MalformedCertificate>)
        ensures
            match r {
                Ok(fp) => certificate(der@) is Some && fp.0@ == sha256(certificate(der@)->0.spki),
                Err(_) => certificate(der@) is None,
            },
    {
        match parse_certificate(der) {
            Ok(cert) => Ok(Fingerprint(digest(cert.spki.as_slice()))),
            Err(why) => Err(MalformedCertificate { why }),
        }
    }

    /// Parse the `sha256:<hex>` textual form. Fails if the prefix is missing or
    /// the digest is not 64 hex characters.
    pub fn parse(s: &str) -> (r: Result<Fingerprint, FingerprintError>)
        ensures
            match r {
                Ok(fp) => parsed_fingerprint(s@) == Ok::<Seq<u8>, FingerprintError>(fp.0@),
                Err(e) => parsed_fingerprint(s@) == Err::<Seq<u8>, FingerprintError>(e),
            },
    {
        let rest = match strip_prefix(s, "sha256:") {
            Some(rest) => rest,
            None => return Err(FingerprintError::NoPrefix),
        };
        let digits: &[u8] = rest.as_str().as_bytes();
        // Work on bytes, not chars: the length counts bytes, so taking the text
        // apart at those offsets could land inside a multi-byte character.
        if digits.len() != 64 {
            return Err(FingerprintError::WrongLength);
        }
        let mut out: [u8; 32] = [0u8; 32];
        let mut i: usize = 0;
        while i < 32
            invariant
                i <= 32,
                digits@.len() == 64,
                digits@ == encode_utf8(rest@),
                without_prefix(s@, "sha256:"@) == Some(rest@),
                forall|k: int| 0 <= k < 2 * i ==> hex_value(#[trigger] digits@[k]) is Some,
                forall|k: int| 0 <= k < i ==> #[trigger] out@[k] == unhex(digits@)[k],
            decreases 32 - i,
        {
            let hi: u8 = match hex_digit(digits[2 * i]) {
                Some(v) => v,
                None => return Err(FingerprintError::NotHex),
            };
            let lo: u8 = match hex_digit(digits[2 * i + 1]) {
                Some(v) => v,
                None => return Err(FingerprintError::NotHex),
            };
            out[i] = hi * 16 + lo;
            i += 1;
        }
        assert(out@ =~= unhex(digits@));
        Ok(Fingerprint(out))
    }

    /// The `sha256:<hex>` textual form.
    pub fn to_string(&self) -> (out: String)
        ensures
            out@ == self.text(),
    {
        let mut out = "sha256:".to_owned();
        let mut i: usize = 0;
        assert(self.text().take("sha256:"@.len() as int) =~= "sha256:"@);
        while i < 32
            invariant
                i <= 32,
                out@ == self.text().take("sha256:"@.len() + 2 * i),
            decreases 32 - i,
        {
            let b: u8 = self.0[i];
            let ghost before = out@;
            out.push(hex_digit_char(b / 16));
            out.push(hex_digit_char(b % 16));
            i += 1;
            assert(hex(self.0@)[2 * (i - 1)] == hex_char(b as int / 16));
            assert(hex(self.0@)[2 * (i - 1) + 1] == hex_char(b as int % 16));
            assert(out@ =~= self.text().take("sha256:"@.len() + 2 * i));
        }
        assert(self.text().take("sha256:"@.len() as int + 64) =~= self.text());
        out
    }
}

fn hex_digit_char(v: u8) -> (c: char)
    requires
        v < 16,
    ensures
        c == hex_char(v as int),
{
    if v < 10 {
        (48 + v) as char
    } else {
        (97 + (v - 10)) as char
    }
}

/// Thirty-two bytes, written as a fingerprint, are read back as they were.
pub proof fn lemma_digest_reads_back(bytes: Seq<u8>)
    requires
        bytes.len() == 32,
    ensures
        parsed_fingerprint("sha256:"@ + hex(bytes)) == Ok::<Seq<u8>, FingerprintError>(bytes),
{
    let p = "sha256:"@;
    let digits = hex(bytes);
    assert((p + digits).take(p.len() as int) =~= p);
    assert((p + digits).skip(p.len() as int) =~= digits);
    assert(vstd::utf8::is_ascii_chars(digits));
    is_ascii_chars_encode_utf8(digits);
    let coded = encode_utf8(digits);
    assert(coded.len() == 64);
    assert forall|i: int| 0 <= i < 64 implies hex_value(#[trigger] coded[i]) == Some(
        if i % 2 == 0 {
            bytes[i / 2] as int / 16
        } else {
            bytes[i / 2] as int % 16
        },
    ) by {
        assert(coded[i] == digits[i] as u8);
    }
    assert forall|i: int| 0 <= i < 32 implies #[trigger] unhex(coded)[i] == bytes[i] by {
        assert(hex_value(coded[2 * i]) == Some(bytes[i] as int / 16));
        assert(hex_value(coded[2 * i + 1]) == Some(bytes[i] as int % 16));
    }
    assert(unhex(coded) =~= bytes);
}

/// A fingerprint's textual form is read back as that fingerprint.
pub proof fn law_fingerprint_round_trips(fp: Fingerprint)
    ensures
        parsed_fingerprint(fp.text()) == Ok::<Seq<u8>, FingerprintError>(fp.0@),
{
    lemma_digest_reads_back(fp.0@);
}

/// Is this a hexadecimal digit, in either case?
pub open spec fn is_hex(c: char) -> bool {
    '0' <= c <= '9' || 'a' <= c <= 'f' || 'A' <= c <= 'F'
}

/// Is the text `sha256:` with 64 hexadecimal digits behind it?
pub open spec fn looks_like_fingerprint(s: Seq<char>) -> bool {
    &&& s.len() == 71
    &&& s.take(7) == "sha256:"@
    &&& forall|i: int| 7 <= i < 71 ==> is_hex(#[trigger] s[i])
}

/// A character that is encoded in one byte is ASCII.
proof fn lemma_ascii_char(c: char)
    requires
        vstd::utf8::has_width_1_encoding(c as u32),
    ensures
        '\0' <= c <= '\u{7f}',
{
}

/// Characters whose encoding has no byte above the ASCII range are ASCII.
proof fn lemma_ascii_bytes(chars: Seq<char>)
    requires
        forall|i: int| 0 <= i < encode_utf8(chars).len() ==> #[trigger] encode_utf8(chars)[i] < 128,
    ensures
        vstd::utf8::is_ascii_chars(chars),
    decreases chars.len(),
{
    if chars.len() > 0 {
        let c = chars[0] as u32;
        let first = vstd::utf8::encode_scalar(c);
        let rest = encode_utf8(chars.drop_first());
        let all = encode_utf8(chars);
        assert(all == first + rest);
        assert(vstd::utf8::leading_byte_width_2(c) >= 128) by (bit_vector);
        assert(vstd::utf8::leading_byte_width_3(c) >= 128) by (bit_vector);
        assert(vstd::utf8::leading_byte_width_4(c) >= 128) by (bit_vector);
        assert(all[0] == first[0]);
        assert(vstd::utf8::has_width_1_encoding(c));
        assert forall|i: int| 0 <= i < rest.len() implies #[trigger] rest[i] < 128 by {
            assert(rest[i] == all[i + 1]);
        }
        lemma_ascii_bytes(chars.drop_first());
        lemma_ascii_char(chars[0]);
        assert forall|i: int| 0 <= i < chars.len() implies '\0' <= #[trigger] chars[i]
            <= '\u{7f}' by {
            if i > 0 {
                assert(chars[i] == chars.drop_first()[i - 1]);
            }
        }
    }
}

/// A hexadecimal digit, and no other ASCII character, has a value, and that value
/// is written as the digit in lower case.
proof fn lemma_hex_digit(c: char)
    requires
        '\0' <= c <= '\u{7f}',
    ensures
        hex_value(c as u8) is Some <==> is_hex(c),
        is_hex(c) ==> 0 <= hex_value(c as u8)->0 < 16 && hex_char(hex_value(c as u8)->0) == lower(c),
{
}

/// What is read behind the prefix of a fingerprint.
proof fn lemma_fingerprint_digits(s: Seq<char>)
    requires
        looks_like_fingerprint(s) || parsed_fingerprint(s) is Ok,
    ensures
        ({
            let coded = encode_utf8(s.skip(7));
            &&& s.len() == 71
            &&& s.take(7) == "sha256:"@
            &&& coded.len() == 64
            &&& forall|i: int| 0 <= i < 64 ==> #[trigger] coded[i] == s[i + 7] as u8
            &&& forall|i: int| 0 <= i < 64 ==> '\0' <= #[trigger] s.skip(7)[i] <= '\u{7f}'
        }),
{
    reveal_strlit("sha256:");
    let digits = s.skip(7);
    if looks_like_fingerprint(s) {
        assert forall|i: int| 0 <= i < digits.len() implies '\0' <= #[trigger] digits[i]
            <= '\u{7f}' by {
            assert(is_hex(s[i + 7]));
        }
    } else {
        assert forall|i: int| 0 <= i < encode_utf8(digits).len() implies #[trigger] encode_utf8(
            digits,
        )[i] < 128 by {
            assert(hex_value(encode_utf8(digits)[i]) is Some);
        }
        lemma_ascii_bytes(digits);
    }
    is_ascii_chars_encode_utf8(digits);
    let coded = encode_utf8(digits);
    assert forall|i: int| 0 <= i < coded.len() implies #[trigger] coded[i] == s[i + 7] as u8 by {
        assert(digits[i] == s[i + 7]);
    }
}

/// The texts that are fingerprints are `sha256:` with 64 hexadecimal digits
/// behind it and no others, and the key that is read out of one is written as
/// that text in lower case.
pub proof fn law_fingerprints_are_64_digits(s: Seq<char>)
    ensures
        parsed_fingerprint(s) is Ok <==> looks_like_fingerprint(s),
        parsed_fingerprint(s) matches Ok(bytes) ==> "sha256:"@ + hex(bytes) == lowercase(s),
{
    if looks_like_fingerprint(s) || parsed_fingerprint(s) is Ok {
        lemma_fingerprint_digits(s);
        reveal_strlit("sha256:");
        let coded = encode_utf8(s.skip(7));
        assert forall|i: int| 0 <= i < 64 implies (hex_value(#[trigger] coded[i]) is Some <==> is_hex(
            s[i + 7],
        )) by {
            assert(s.skip(7)[i] == s[i + 7]);
            lemma_hex_digit(s[i + 7]);
        }
        if parsed_fingerprint(s) is Ok {
            assert forall|i: int| 7 <= i < 71 implies is_hex(#[trigger] s[i]) by {
                assert(hex_value(coded[i - 7]) is Some);
            }
        }
        lemma_lower_case_digits(s, coded);
    }
}

/// What the digits of a fingerprint write is written as those digits in lower
/// case.
proof fn lemma_lower_case_digits(s: Seq<char>, coded: Seq<u8>)
    requires
        looks_like_fingerprint(s),
        coded.len() == 64,
        forall|i: int| 0 <= i < 64 ==> #[trigger] coded[i] == s[i + 7] as u8,
    ensures
        "sha256:"@ + hex(unhex(coded)) == lowercase(s),
{
    reveal_strlit("sha256:");
    let bytes = unhex(coded);
    let written = "sha256:"@ + hex(bytes);
    assert forall|i: int| 0 <= i < 71 implies #[trigger] written[i] == lowercase(s)[i] by {
        if i < 7 {
            assert(s[i] == s.take(7)[i]);
        } else {
            let k: int = (i - 7) / 2;
            let (hi, lo) = (s[2 * k + 7], s[2 * k + 1 + 7]);
            assert(is_hex(hi) && is_hex(lo));
            lemma_hex_digit(hi);
            lemma_hex_digit(lo);
            assert(coded[2 * k] == hi as u8);
            assert(coded[2 * k + 1] == lo as u8);
            let (h, l) = (hex_value(hi as u8)->0, hex_value(lo as u8)->0);
            assert(bytes[k] == h * 16 + l);
            assert(bytes[k] as int / 16 == h && bytes[k] as int % 16 == l);
            assert(written[i] == hex(bytes)[i - 7]);
        }
    }
    assert(written =~= lowercase(s));
}

/// Two keys with the same textual form are the same key.
pub proof fn law_fingerprint_text_is_unique(a: Fingerprint, b: Fingerprint)
    requires
        a.text() == b.text(),
    ensures
        a.0@ == b.0@,
{
    law_fingerprint_round_trips(a);
    law_fingerprint_round_trips(b);
}

/// Bytes with the same hexadecimal form are the same bytes.
pub proof fn lemma_hex_is_unique(a: Seq<u8>, b: Seq<u8>)
    requires
        hex(a) == hex(b),
    ensures
        a == b,
{
    assert(hex(a).len() == 2 * a.len());
    assert(hex(b).len() == 2 * b.len());
    assert forall|i: int| 0 <= i < a.len() implies a[i] == b[i] by {
        assert(hex(a)[2 * i] == hex_char(a[i] as int / 16));
        assert(hex(a)[2 * i + 1] == hex_char(a[i] as int % 16));
        assert(hex(b)[2 * i] == hex_char(b[i] as int / 16));
        assert(hex(b)[2 * i + 1] == hex_char(b[i] as int % 16));
    }
    assert(a =~= b);
}

// ---------------------------------------------------------------------------
// Certificates
// ---------------------------------------------------------------------------

/// An instant in a certificate: nanoseconds since the Unix epoch, and whether
/// it is written as a GeneralizedTime rather than as a UTCTime.
#[derive(Debug, Clone, Copy, PartialEq, Eq, Structural)]
pub struct CertTime {
    pub nanos: i128,
    pub generalized: bool,
}

impl CertTime {
    /// Does `self` order before `other`? Equal instants order by the way they
    /// are written.
    pub open spec fn earlier(self, other: CertTime) -> bool {
        self.nanos < other.nanos || (self.nanos == other.nanos && !self.generalized
            && other.generalized)
    }

    fn before(&self, other: &CertTime) -> (r: bool)
        ensures
            r == self.earlier(*other),
    {
        self.nanos < other.nanos || (self.nanos == other.nanos && !self.generalized
            && other.generalized)
    }
}

/// What is read out of a certificate: its public key and its validity window.
pub struct Certificate {
    pub spki: Vec<u8>,
    pub not_before: CertTime,
    pub not_after: CertTime,
}

/// What a [`Certificate`] holds.
pub struct CertificateView {
    pub spki: Seq<u8>,
    pub not_before: CertTime,
    pub not_after: CertTime,
}

impl View for Certificate {
    type V = CertificateView;

    open spec fn view(&self) -> CertificateView {
        CertificateView {
            spki: self.spki@,
            not_before: self.not_before,
            not_after: self.not_after,
        }
    }
}

/// What `X509Certificate::from_der` reads out of the bytes: the raw
/// `SubjectPublicKeyInfo` and the validity window, `None` where it fails.
pub uninterp spec fn certificate(der: Seq<u8>) -> Option<CertificateView>;

/// The SHA-256 digest of the bytes.
pub uninterp spec fn sha256(bytes: Seq<u8>) -> Seq<u8>;

/// `X509Certificate::from_der`: the certificate at the front of the bytes. What
/// is read depends on the bytes alone. The error is the parser's own message.
#[verifier::external_body]
fn parse_certificate(der: &[u8]) -> (r: Result<Certificate, String>)
    ensures
        match r {
            Ok(cert) => certificate(der@) == Some(cert@),
            Err(_) => certificate(der@) is None,
        },
{
    let (_, cert) = X509Certificate::from_der(der).map_err(|e| e.to_string())?;
    let time = |t: &ASN1Time| CertTime {
        nanos: t.to_datetime().unix_timestamp_nanos(),
        generalized: t.is_generalizedtime(),
    };
    Ok(
        Certificate {
            spki: cert.public_key().raw.to_vec(),
            not_before: time(&cert.validity().not_before),
            not_after: time(&cert.validity().not_after),
        },
    )
}

/// `Sha256::digest`: the digest depends on the bytes alone.
#[verifier::external_body]
fn digest(bytes: &[u8]) -> (out: [u8; 32])
    ensures
        out@ == sha256(bytes@),
{
    Sha256::digest(bytes).into()
}

/// The first second of the year 1.
pub const FIRST_SECOND: i64 = -62135596800;

/// The last second of the year 9999.
pub const LAST_SECOND: i64 = 253402300799;

/// The first second of the year 1950.
pub const YEAR_1950: i64 = -631152000;

/// The first second of the year 2050, from which on certificates write their
/// times as GeneralizedTime.
pub const YEAR_2050: i64 = 2524608000;

/// `ASN1Time::from_timestamp` on a time since the epoch: it fails past the end
/// of the year 9999, and otherwise gives that second, as a GeneralizedTime from
/// the year 2050 on.
#[verifier::external_body]
fn time_of(seconds: i64) -> (r: Option<CertTime>)
    requires
        seconds >= 0,
    ensures
        match r {
            Some(t) => seconds <= LAST_SECOND && t.nanos == seconds * 1000000000 && t.generalized
                == (seconds >= YEAR_2050),
            None => seconds > LAST_SECOND,
        },
{
    let time = ASN1Time::from_timestamp(seconds).ok()?;
    Some(
        CertTime {
            nanos: time.to_datetime().unix_timestamp_nanos(),
            generalized: time.is_generalizedtime(),
        },
    )
}

/// The bytes are not a parseable X.509 certificate; the parser says why.
#[derive(Debug, Clone)]
pub struct MalformedCertificate {
    pub why: String,
}

impl MalformedCertificate {
    /// What the error says.
    pub open spec fn text(&self) -> Seq<char> {
        "malformed certificate: "@ + self.why@
    }

    /// What the error says.
    pub fn message(&self) -> (out: String)
        ensures
            out@ == self.text(),
    {
        let mut out = "malformed certificate: ".to_owned();
        out.append(self.why.as_str());
        out
    }
}

/// Why a certificate was refused in a handshake.
#[derive(Debug, Clone, Copy)]
pub enum CertificateError {
    /// It could not be parsed, or not be held against the clock.
    BadEncoding,
    /// Its validity window lies in the future.
    NotValidYet,
    /// Its validity window lies in the past.
    Expired,
    /// It holds another key than the pinned one.
    KeyMismatch(HostKeyMismatch),
    /// Its key is not authorised.
    NotAuthorized,
}

/// The second `now` as a time that certificates can be held against.
pub open spec fn instant(now: u64) -> CertTime {
    CertTime { nanos: (now * 1000000000) as i128, generalized: now >= YEAR_2050 }
}

/// The outcome of holding a certificate's window against the second `now`.
#[derive(Debug, Clone, Copy, PartialEq, Eq, Structural)]
pub enum Validity {
    BadEncoding,
    NotValidYet,
    Expired,
    Valid,
}

/// How the certificate stands at the second `now`: it is valid from the first
/// instant of its window to the last, both included.
///
/// Equal instants order by the way they are written, and the second `now` counts
/// as a GeneralizedTime from the year 2050 on. So a window that begins with a
/// GeneralizedTime from 1970 up to that year, which no certificate should hold,
/// leaves out that very instant.
pub open spec fn validity(cert: Option<CertificateView>, now: u64) -> Validity {
    match cert {
        None => Validity::BadEncoding,
        Some(c) => if now > LAST_SECOND {
            Validity::BadEncoding
        } else if instant(now).earlier(c.not_before) {
            Validity::NotValidYet
        } else if c.not_after.earlier(instant(now)) {
            Validity::Expired
        } else {
            Validity::Valid
        },
    }
}

/// How a parsed certificate stands at the second `now`.
pub fn validity_at(cert: &Certificate, now: u64) -> (r: Validity)
    ensures
        r == validity(Some(cert@), now),
{
    if now > LAST_SECOND as u64 {
        return Validity::BadEncoding;
    }
    match time_of(now as i64) {
        None => Validity::BadEncoding,
        Some(t) => {
            assert(t == instant(now));
            if t.before(&cert.not_before) {
                Validity::NotValidYet
            } else if cert.not_after.before(&t) {
                Validity::Expired
            } else {
                Validity::Valid
            }
        },
    }
}

/// Reject certificates that are not currently within their validity window.
/// `now` counts seconds since the Unix epoch. Fails if the certificate cannot
/// be parsed, has expired, or is not yet valid.
pub fn check_validity(der: &[u8], now: u64) -> (r: Result<(), CertificateError>)
    ensures
        match r {
            Ok(()) => validity(certificate(der@), now) is Valid,
            Err(CertificateError::BadEncoding) => validity(certificate(der@), now) is BadEncoding,
            Err(CertificateError::NotValidYet) => validity(certificate(der@), now) is NotValidYet,
            Err(CertificateError::Expired) => validity(certificate(der@), now) is Expired,
            Err(_) => false,
        },
{
    match parse_certificate(der) {
        Err(_) => Err(CertificateError::BadEncoding),
        Ok(cert) => match validity_at(&cert, now) {
            Validity::Valid => Ok(()),
            Validity::BadEncoding => Err(CertificateError::BadEncoding),
            Validity::NotValidYet => Err(CertificateError::NotValidYet),
            Validity::Expired => Err(CertificateError::Expired),
        },
    }
}

/// A certificate is valid throughout one unbroken stretch of time: valid at two
/// instants, it is valid at every instant between them.
pub proof fn law_validity_has_no_gaps(c: CertificateView, first: u64, now: u64, last: u64)
    requires
        first <= now <= last,
        validity(Some(c), first) is Valid,
        validity(Some(c), last) is Valid,
    ensures
        validity(Some(c), now) is Valid,
{
    assert(instant(first).nanos == first * 1000000000);
    assert(instant(now).nanos == now * 1000000000);
    assert(instant(last).nanos == last * 1000000000);
}

/// An expired certificate stays expired.
pub proof fn law_expiry_is_final(c: CertificateView, now: u64, later: u64)
    requires
        now <= later <= LAST_SECOND,
        validity(Some(c), now) is Expired,
    ensures
        validity(Some(c), later) is Expired,
{
    assert(instant(now).nanos == now * 1000000000);
    assert(instant(later).nanos == later * 1000000000);
}

/// Is this a certificate that is valid at the second `now` and holds the pinned
/// key?
pub open spec fn pin_holds(cert: Option<CertificateView>, pinned: Seq<u8>, now: u64) -> bool {
    validity(cert, now) is Valid && sha256(cert->0.spki) == pinned
}

/// Renewing a certificate for the same key does not invalidate a pin: whenever
/// the new one is valid, it is accepted like the old one.
pub proof fn law_renewal_keeps_the_pin(
    old_cert: CertificateView,
    new_cert: CertificateView,
    pinned: Seq<u8>,
    before: u64,
    now: u64,
)
    requires
        pin_holds(Some(old_cert), pinned, before),
        new_cert.spki == old_cert.spki,
        validity(Some(new_cert), now) is Valid,
    ensures
        pin_holds(Some(new_cert), pinned, now),
{
}

/// Client-side check: the server's public key must equal the pinned one.
#[derive(Debug, Clone, Copy)]
pub struct PinnedServerVerifier {
    pub expected: Fingerprint,
}

impl PinnedServerVerifier {
    pub fn new(expected: Fingerprint) -> (v: PinnedServerVerifier)
        ensures
            v.expected == expected,
    {
        PinnedServerVerifier { expected }
    }

    /// Accepts exactly the certificates that are valid now and hold the pinned
    /// key. Validity is judged first.
    pub fn verify_server_cert(&self, end_entity: &[u8], now: u64) -> (r: Result<
        (),
        CertificateError,
    >)
        ensures
            r is Ok == pin_holds(certificate(end_entity@), self.expected.0@, now),
            ({
                let cert = certificate(end_entity@);
                let v = validity(cert, now);
                match r {
                    Ok(()) => v is Valid,
                    Err(CertificateError::BadEncoding) => v is BadEncoding,
                    Err(CertificateError::NotValidYet) => v is NotValidYet,
                    Err(CertificateError::Expired) => v is Expired,
                    Err(CertificateError::KeyMismatch(m)) => {
                        &&& v is Valid
                        &&& m.got.0@ == sha256(cert->0.spki)
                        &&& m.expected == self.expected
                        &&& m.got.0@ != m.expected.0@
                    },
                    Err(_) => false,
                }
            }),
    {
        match check_validity(end_entity, now) {
            Ok(()) => {},
            Err(e) => return Err(e),
        }
        let got = match Fingerprint::of_cert(end_entity) {
            Ok(fp) => fp,
            Err(_) => return Err(CertificateError::BadEncoding),
        };
        if !got.same_key(&self.expected) {
            return Err(
                CertificateError::KeyMismatch(HostKeyMismatch { got, expected: self.expected }),
            );
        }
        Ok(())
    }
}

impl Fingerprint {
    /// Are the two the fingerprint of one key?
    pub fn same_key(&self, other: &Fingerprint) -> (r: bool)
        ensures
            r == (self.0@ == other.0@),
    {
        let mut i: usize = 0;
        while i < 32
            invariant
                i <= 32,
                forall|k: int| 0 <= k < i ==> self.0@[k] == other.0@[k],
            decreases 32 - i,
        {
            if self.0[i] != other.0[i] {
                return false;
            }
            i += 1;
        }
        assert(self.0@ =~= other.0@);
        true
    }
}

/// Error surfaced when the presented host key differs from the pinned one.
#[derive(Debug, Clone, Copy)]
pub struct HostKeyMismatch {
    pub got: Fingerprint,
    pub expected: Fingerprint,
}

impl HostKeyMismatch {
    /// What the error says.
    pub open spec fn text(&self) -> Seq<char> {
        "host key mismatch: expected "@ + self.expected.text() + ", got "@ + self.got.text()
    }

    /// What the error says.
    pub fn to_string(&self) -> (out: String)
        ensures
            out@ == self.text(),
    {
        let mut out = "host key mismatch: expected ".to_owned();
        out.append(self.expected.to_string().as_str());
        out.append(", got ");
        out.append(self.got.to_string().as_str());
        out
    }
}

/// Server-side check: the client must present a certificate whose public key is
/// listed as authorised. The mapping to a local user is resolved afterwards,
/// from the certificate the handshake exposes.
///
/// The predicate is consulted per handshake rather than baked in at start-up,
/// so revoking a client takes effect on the next connection without a restart.
pub struct AuthorizedClientVerifier<F: Fn(&Fingerprint) -> bool> {
    pub is_allowed: F,
}

impl<F: Fn(&Fingerprint) -> bool> AuthorizedClientVerifier<F> {
    pub fn new(is_allowed: F) -> (v: AuthorizedClientVerifier<F>)
        ensures
            v.is_allowed == is_allowed,
    {
        AuthorizedClientVerifier { is_allowed }
    }

    /// Accepts exactly the certificates that are valid now and whose key the
    /// predicate allows. Validity is judged first, and the predicate is asked
    /// about the key of that very certificate.
    pub fn verify_client_cert(&self, end_entity: &[u8], now: u64) -> (r: Result<
        (),
        CertificateError,
    >)
        requires
            forall|fp: &Fingerprint| #[trigger] self.is_allowed.requires((fp,)),
        ensures
            ({
                let cert = certificate(end_entity@);
                let v = validity(cert, now);
                match r {
                    Ok(()) => v is Valid && exists|fp: Fingerprint|
                        fp.0@ == sha256(cert->0.spki) && #[trigger] self.is_allowed.ensures(
                            (&fp,),
                            true,
                        ),
                    Err(CertificateError::BadEncoding) => v is BadEncoding,
                    Err(CertificateError::NotValidYet) => v is NotValidYet,
                    Err(CertificateError::Expired) => v is Expired,
                    Err(CertificateError::NotAuthorized) => v is Valid && exists|fp: Fingerprint|
                        fp.0@ == sha256(cert->0.spki) && #[trigger] self.is_allowed.ensures(
                            (&fp,),
                            false,
                        ),
                    Err(_) => false,
                }
            }),
    {
        match check_validity(end_entity, now) {
            Ok(()) => {},
            Err(e) => return Err(e),
        }
        let got = match Fingerprint::of_cert(end_entity) {
            Ok(fp) => fp,
            Err(_) => return Err(CertificateError::BadEncoding),
        };
        if !(self.is_allowed)(&got) {
            return Err(CertificateError::NotAuthorized);
        }
        Ok(())
    }
}

// ---------------------------------------------------------------------------
// PEM files
// ---------------------------------------------------------------------------

/// A private key, by the container it is written in.
#[derive(Debug)]
pub enum PrivateKey {
    Pkcs1(Vec<u8>),
    Sec1(Vec<u8>),
    Pkcs8(Vec<u8>),
}

/// What a [`PrivateKey`] holds.
pub enum PrivateKeyView {
    Pkcs1(Seq<u8>),
    Sec1(Seq<u8>),
    Pkcs8(Seq<u8>),
}

impl View for PrivateKey {
    type V = PrivateKeyView;

    open spec fn view(&self) -> PrivateKeyView {
        match *self {
            PrivateKey::Pkcs1(b) => PrivateKeyView::Pkcs1(b@),
            PrivateKey::Sec1(b) => PrivateKeyView::Sec1(b@),
            PrivateKey::Pkcs8(b) => PrivateKeyView::Pkcs8(b@),
        }
    }
}

/// The certificate sections of a PEM text, in order: the DER bytes of each, or
/// `None` where a section could not be read.
pub uninterp spec fn pem_sections(pem: Seq<u8>) -> Seq<Option<Seq<u8>>>;

/// The first private key of a PEM text: `None` where a section before it could
/// not be read, `Some(None)` where there is none.
pub uninterp spec fn pem_key(pem: Seq<u8>) -> Option<Option<PrivateKeyView>>;

/// What one read section stands for.
pub open spec fn section(r: Result<Vec<u8>, String>) -> Option<Seq<u8>> {
    match r {
        Ok(der) => Some(der@),
        Err(_) => None,
    }
}

/// `rustls_pemfile::certs`: every certificate section of the text, in order,
/// and in the place of a section that cannot be read the reason. What is read
/// depends on the bytes alone.
#[verifier::external_body]
fn pem_certificates(pem: &[u8]) -> (out: Vec<Result<Vec<u8>, String>>)
    ensures
        out@.map_values(|r: Result<Vec<u8>, String>| section(r)) == pem_sections(pem@),
{
    let mut reader = pem;
    rustls_pemfile::certs(&mut reader)
        .map(|cert| cert.map(|der| der.to_vec()).map_err(|e| e.to_string()))
        .collect()
}

/// `rustls_pemfile::private_key`: the first private key of the text. What is
/// read depends on the bytes alone.
#[verifier::external_body]
fn pem_private_key(pem: &[u8]) -> (out: Result<Option<PrivateKey>, String>)
    ensures
        match out {
            Ok(Some(key)) => pem_key(pem@) == Some(Some(key@)),
            Ok(None) => pem_key(pem@) == Some(None::<PrivateKeyView>),
            Err(_) => pem_key(pem@) is None,
        },
{
    let mut reader = pem;
    match rustls_pemfile::private_key(&mut reader) {
        Ok(Some(PrivateKeyDer::Pkcs1(k))) => Ok(Some(PrivateKey::Pkcs1(k.secret_pkcs1_der().to_vec()))),
        Ok(Some(PrivateKeyDer::Sec1(k))) => Ok(Some(PrivateKey::Sec1(k.secret_sec1_der().to_vec()))),
        Ok(Some(PrivateKeyDer::Pkcs8(k))) => Ok(Some(PrivateKey::Pkcs8(k.secret_pkcs8_der().to_vec()))),
        Ok(_) => Ok(None),
        Err(e) => Err(e.to_string()),
    }
}

/// Why no certificate or key could be had from a PEM text.
#[derive(Debug, Clone)]
pub enum PemError {
    /// A section could not be read.
    Unreadable(String),
    /// There is no such section.
    Missing,
}

/// Parse the first certificate out of a PEM string. Fails if the first section
/// is malformed or there is none.
pub fn cert_from_pem(pem: &str) -> (r: Result<Vec<u8>, PemError>)
    ensures
        ({
            let sections = pem_sections(encode_utf8(pem@));
            match r {
                Ok(der) => sections.len() > 0 && sections[0] == Some(der@),
                Err(PemError::Unreadable(_)) => sections.len() > 0 && sections[0] is None,
                Err(PemError::Missing) => sections.len() == 0,
            }
        }),
{
    let mut sections = pem_certificates(pem.as_bytes());
    let ghost all = sections@.map_values(|r: Result<Vec<u8>, String>| section(r));
    if sections.len() == 0 {
        return Err(PemError::Missing);
    }
    let first = sections.remove(0);
    assert(all[0] == section(first));
    match first {
        Ok(der) => Ok(der),
        Err(why) => Err(PemError::Unreadable(why)),
    }
}

/// The first certificate in the contents of a PEM file. Every section must be
/// readable; fails if one is not or there is none.
pub fn load_cert(pem: &[u8]) -> (r: Result<Vec<u8>, PemError>)
    ensures
        ({
            let sections = pem_sections(pem@);
            match r {
                Ok(der) => {
                    &&& sections.len() > 0
                    &&& sections[0] == Some(der@)
                    &&& forall|i: int| 0 <= i < sections.len() ==> #[trigger] sections[i] is Some
                },
                Err(PemError::Unreadable(_)) => exists|i: int|
                    0 <= i < sections.len() && #[trigger] sections[i] is None,
                Err(PemError::Missing) => sections.len() == 0,
            }
        }),
{
    let mut sections = pem_certificates(pem);
    let ghost all = sections@.map_values(|r: Result<Vec<u8>, String>| section(r));
    let mut i: usize = 0;
    while i < sections.len()
        invariant
            i <= sections@.len(),
            all == sections@.map_values(|r: Result<Vec<u8>, String>| section(r)),
            all == pem_sections(pem@),
            forall|k: int| 0 <= k < i ==> #[trigger] all[k] is Some,
        decreases sections@.len() - i,
    {
        assert(all[i as int] == section(sections@[i as int]));
        match &sections[i] {
            Ok(_) => {},
            Err(why) => return Err(PemError::Unreadable(why.clone())),
        }
        i += 1;
    }
    if sections.len() == 0 {
        return Err(PemError::Missing);
    }
    let first = sections.remove(0);
    assert(all[0] == section(first));
    match first {
        Ok(der) => Ok(der),
        Err(why) => Err(PemError::Unreadable(why)),
    }
}

/// May anyone but its owner use a file with these permission bits?
pub open spec fn shared_mode(mode: u32) -> bool {
    mode & 0o077 != 0
}

/// The permission bits as four octal digits.
pub open spec fn octal(mode: u32) -> Seq<char> {
    let m = mode & 0o777;
    seq!['0', digit_char((m / 64) as nat), digit_char((m / 8 % 8) as nat), digit_char((m % 8) as nat)]
}

/// The permission bits as four octal digits.
fn octal_text(mode: u32) -> (out: String)
    ensures
        out@ == octal(mode),
{
    let m: u32 = mode & 0o777;
    assert(mode & 0o777 <= 511) by (bit_vector);
    let mut out = String::new();
    out.push('0');
    out.push((48 + (m / 64) as u8) as char);
    out.push((48 + (m / 8 % 8) as u8) as char);
    out.push((48 + (m % 8) as u8) as char);
    assert(out@ =~= octal(mode));
    out
}

/// The complaint about a private key file that others may use.
pub open spec fn shared_key_text(path: Seq<char>, mode: u32) -> Seq<char> {
    "private key "@ + path + " is group/world accessible (mode "@ + octal(mode) + "); run `chmod 600 "@
        + path + "`"@
}

/// Insists on owner-only permissions of the private key file at `path`, before
/// anything is read from it.
pub fn check_key_mode(path: &str, mode: u32) -> (r: Result<(), String>)
    ensures
        match r {
            Ok(()) => !shared_mode(mode),
            Err(why) => shared_mode(mode) && why@ == shared_key_text(path@, mode),
        },
{
    if (mode & 0o777) & 0o077 != 0 {
        assert((mode & 0o777) & 0o077 == mode & 0o077) by (bit_vector);
        let mut out = "private key ".to_owned();
        out.append(path);
        out.append(" is group/world accessible (mode ");
        out.append(octal_text(mode).as_str());
        out.append("); run `chmod 600 ");
        out.append(path);
        out.append("`");
        return Err(out);
    }
    assert((mode & 0o777) & 0o077 == mode & 0o077) by (bit_vector);
    Ok(())
}

/// Why a private key file cannot be used.
#[derive(Debug, Clone)]
pub enum KeyError {
    /// Others than its owner may use it; the complaint says so.
    Shared(String),
    /// A section could not be read.
    Unreadable(String),
    /// It holds no private key.
    Missing,
}

/// The first private key in the file at `path`, by its permission bits and its
/// contents. Insists on owner-only permissions.
pub fn load_key(path: &str, mode: u32, pem: &[u8]) -> (r: Result<PrivateKey, KeyError>)
    ensures
        match r {
            Ok(key) => !shared_mode(mode) && pem_key(pem@) == Some(Some(key@)),
            Err(KeyError::Shared(why)) => shared_mode(mode) && why@ == shared_key_text(path@, mode),
            Err(KeyError::Missing) => !shared_mode(mode) && pem_key(pem@) == Some(
                None::<PrivateKeyView>,
            ),
            Err(KeyError::Unreadable(_)) => !shared_mode(mode) && pem_key(pem@) is None,
        },
{
    if let Err(why) = check_key_mode(path, mode) {
        return Err(KeyError::Shared(why));
    }
    match pem_private_key(pem) {
        Ok(Some(key)) => Ok(key),
        Ok(None) => Err(KeyError::Missing),
        Err(why) => Err(KeyError::Unreadable(why)),
    }
}

/// A certificate plus its private key, as held by a client or a server.
#[derive(Debug)]
pub struct Identity {
    pub cert: Vec<u8>,
    pub key: PrivateKey,
}

impl Identity {
    /// This identity's public key fingerprint. Fails if the stored certificate
    /// cannot be parsed.
    pub fn fingerprint(&self) -> (r: Result<Fingerprint, MalformedCertificate>)
        ensures
            match r {
                Ok(fp) => certificate(self.cert@) is Some && fp.0@ == sha256(
                    certificate(self.cert@)->0.spki,
                ),
                Err(_) => certificate(self.cert@) is None,
            },
    {
        Fingerprint::of_cert(self.cert.as_slice())
    }
}

/// Do a certificate file and a key file hold an identity by their contents?
pub open spec fn loadable(cert_pem: Seq<u8>, key_pem: Seq<u8>) -> bool {
    let certs = pem_sections(cert_pem);
    &&& certs.len() > 0
    &&& forall|i: int| 0 <= i < certs.len() ==> #[trigger] certs[i] is Some
    &&& pem_key(key_pem) is Some
    &&& pem_key(key_pem)->0 is Some
}

/// Which of the two files of an identity cannot be used, and why.
#[derive(Debug, Clone)]
pub enum LoadError {
    Certificate(PemError),
    Key(KeyError),
}

/// An identity from the contents of a certificate file and from the key file at
/// `key_path`; the certificate is looked at first.
pub fn load_identity(cert_pem: &[u8], key_path: &str, key_mode: u32, key_pem: &[u8]) -> (r: Result<
    Identity,
    LoadError,
>)
    ensures
        r is Ok == (loadable(cert_pem@, key_pem@) && !shared_mode(key_mode)),
        ({
            let certs = pem_sections(cert_pem@);
            let readable = forall|i: int| 0 <= i < certs.len() ==> #[trigger] certs[i] is Some;
            match r {
                Ok(id) => certs[0] == Some(id.cert@) && pem_key(key_pem@) == Some(Some(id.key@)),
                Err(LoadError::Certificate(PemError::Unreadable(_))) => !readable,
                Err(LoadError::Certificate(PemError::Missing)) => certs.len() == 0,
                Err(LoadError::Key(e)) => {
                    &&& certs.len() > 0
                    &&& readable
                    &&& match e {
                        KeyError::Shared(why) => shared_mode(key_mode) && why@ == shared_key_text(
                            key_path@,
                            key_mode,
                        ),
                        KeyError::Missing => !shared_mode(key_mode) && pem_key(key_pem@) == Some(
                            None::<PrivateKeyView>,
                        ),
                        KeyError::Unreadable(_) => !shared_mode(key_mode) && pem_key(
                            key_pem@,
                        ) is None,
                    }
                },
            }
        }),
{
    match load_cert(cert_pem) {
        Err(e) => Err(LoadError::Certificate(e)),
        Ok(cert) => match load_key(key_path, key_mode, key_pem) {
            Err(e) => Err(LoadError::Key(e)),
            Ok(key) => Ok(Identity { cert, key }),
        },
    }
}

// ---------------------------------------------------------------------------
// Generating an identity
// ---------------------------------------------------------------------------

/// What a key may be used for.
#[derive(Debug, Clone, Copy, PartialEq, Eq, Structural)]
pub enum KeyUsage {
    DigitalSignature,
}

/// Which side of a handshake a certificate may stand on.
#[derive(Debug, Clone, Copy, PartialEq, Eq, Structural)]
pub enum Purpose {
    ServerAuth,
    ClientAuth,
}

/// What goes into a self-signed certificate. The window is in seconds since the
/// Unix epoch.
#[derive(Debug)]
pub struct Profile {
    pub common_name: String,
    pub sans: Vec<String>,
    pub usages: Vec<KeyUsage>,
    pub purposes: Vec<Purpose>,
    pub not_before: i64,
    pub not_after: i64,
}

/// What a [`Profile`] holds.
#[verifier::ext_equal]
pub struct ProfileView {
    pub common_name: Seq<char>,
    pub sans: Seq<Seq<char>>,
    pub usages: Seq<KeyUsage>,
    pub purposes: Seq<Purpose>,
    pub not_before: i64,
    pub not_after: i64,
}

impl View for Profile {
    type V = ProfileView;

    open spec fn view(&self) -> ProfileView {
        ProfileView {
            common_name: self.common_name@,
            sans: texts(self.sans@),
            usages: self.usages@,
            purposes: self.purposes@,
            not_before: self.not_before,
            not_after: self.not_after,
        }
    }
}

/// Why no identity could be generated.
#[derive(Debug, Clone)]
pub enum IdentityError {
    /// No key pair could be generated.
    Key(String),
    /// A subject alternative name is unusable.
    Names(String),
    /// The certificate could not be signed.
    Signing(String),
    /// The certificate would outlive the year 9999.
    Window,
}

/// The certificate, in PEM, that `rcgen` signs with the Ed25519 key in `key_pem`
/// for this profile; `None` where it fails.
pub uninterp spec fn signed_certificate(key_pem: Seq<char>, profile: ProfileView) -> Option<Seq<char>>;

/// Can these be subject alternative names? They are ASCII.
pub open spec fn names_usable(sans: Seq<Seq<char>>) -> bool {
    forall|i: int| 0 <= i < sans.len() ==> vstd::utf8::is_ascii_chars(#[trigger] sans[i])
}

/// What `rcgen` reports when it fails.
#[verifier::external_type_specification]
#[verifier::external_body]
pub struct ExRcgenError(rcgen::Error);

/// `rcgen::Error` as text. The wording is the crate's own.
#[verifier::external_body]
fn rcgen_error_text(e: &rcgen::Error) -> String {
    e.to_string()
}

/// How long a PEM text may be so that the size of no section keeps it from being
/// read.
pub const PEM_LIMIT: usize = 268435456;

/// The instant of a certificate that is written for this second: a UTCTime from
/// the year 1950 up to 2050, a GeneralizedTime elsewhere.
pub open spec fn written(second: i64) -> CertTime {
    CertTime {
        nanos: (second * 1000000000) as i128,
        generalized: second < YEAR_1950 || second >= YEAR_2050,
    }
}

/// The certificate that stands first in a PEM text.
pub open spec fn certificate_in(pem: Seq<char>) -> Option<CertificateView> {
    let sections = pem_sections(encode_utf8(pem));
    if sections.len() > 0 && sections[0] is Some {
        certificate(sections[0]->0)
    } else {
        None
    }
}

/// Does the text hold one certificate, and that one this window?
pub open spec fn holds_window(pem: Seq<char>, not_before: i64, not_after: i64) -> bool {
    &&& pem_sections(encode_utf8(pem)).len() == 1
    &&& certificate_in(pem) is Some
    &&& certificate_in(pem)->0.not_before == written(not_before)
    &&& certificate_in(pem)->0.not_after == written(not_after)
}

/// `rcgen::KeyPair::generate_for` Ed25519, and the private key in PEM. The key
/// is drawn at random: of every key it is claimed that the text is one that
/// holds a PKCS #8 private key, as `KeyPair::serialize_pem` writes it.
#[verifier::external_body]
fn new_key_pem() -> (r: Result<String, rcgen::Error>)
    ensures
        r matches Ok(pem) ==> (pem_key(encode_utf8(pem@)) matches Some(Some(key)) && key is Pkcs8),
{
    Ok(KeyPair::generate_for(&rcgen::PKCS_ED25519)?.serialize_pem())
}

/// `rcgen::CertificateParams::new` on these names: it accepts every IP address
/// and every other name that is ASCII, as IP addresses are too.
#[verifier::external_body]
fn check_names(sans: &Vec<String>) -> (r: Result<(), rcgen::Error>)
    ensures
        r is Ok == names_usable(texts(sans@)),
{
    CertificateParams::new(sans.clone()).map(|_| ())
}

/// `rcgen::CertificateParams::self_signed`, not as a CA, with the Ed25519 key in
/// `key_pem`; any other key is an error. Ed25519 signatures and the serial number
/// are functions of the key and what is signed, so the certificate depends on the
/// arguments alone. The text is one PEM section, and unless it is too long to be
/// read at all, the certificate in it is read back with the two ends of the
/// window as they were given.
#[verifier::external_body]
fn self_signed_pem(key_pem: &str, p: &Profile) -> (r: Result<String, rcgen::Error>)
    requires
        FIRST_SECOND <= p.not_before <= LAST_SECOND,
        FIRST_SECOND <= p.not_after <= LAST_SECOND,
    ensures
        match r {
            Ok(pem) => {
                &&& signed_certificate(key_pem@, p@) == Some(pem@)
                &&& pem@.len() <= PEM_LIMIT ==> holds_window(pem@, p.not_before, p.not_after)
            },
            Err(_) => signed_certificate(key_pem@, p@) is None,
        },
{
    let mut params = CertificateParams::new(p.sans.clone())?;
    params.distinguished_name.push(DnType::CommonName, p.common_name.as_str());
    params.key_usages = p.usages.iter().map(|u| match u {
        KeyUsage::DigitalSignature => KeyUsagePurpose::DigitalSignature,
    }).collect();
    params.extended_key_usages = p.purposes.iter().map(|u| match u {
        Purpose::ServerAuth => ExtendedKeyUsagePurpose::ServerAuth,
        Purpose::ClientAuth => ExtendedKeyUsagePurpose::ClientAuth,
    }).collect();
    params.not_before = OffsetDateTime::from_unix_timestamp(p.not_before).unwrap();
    params.not_after = OffsetDateTime::from_unix_timestamp(p.not_after).unwrap();
    let key = KeyPair::from_pkcs8_pem_and_sign_algo(key_pem, &rcgen::PKCS_ED25519)?;
    Ok(params.self_signed(&key)?.pem())
}

/// How far a certificate is backdated, in seconds. It absorbs modest clock skew
/// between the two hosts.
pub const BACKDATE: i64 = 3600;

/// The second that a clock reading stands for: before the epoch it is negative.
pub open spec fn second_of(reading: Result<u64, u64>) -> int {
    match reading {
        Ok(seconds) => seconds as int,
        Err(until) => -(until as int),
    }
}

/// The window of a certificate made at this clock reading and valid for `days`
/// days: from one hour ago on. There is none where it begins before the year 1
/// or ends after the year 9999.
pub open spec fn window(reading: Result<u64, u64>, days: u32) -> Option<(int, int)> {
    let now = second_of(reading);
    if now - BACKDATE >= FIRST_SECOND && now + days * 86400 <= LAST_SECOND {
        Some((now - BACKDATE, now + days * 86400))
    } else {
        None
    }
}

/// The window of a certificate made at this clock reading and valid for `days`
/// days.
pub fn identity_window(reading: Result<u64, u64>, days: u32) -> (r: Option<(i64, i64)>)
    ensures
        match r {
            Some((from, to)) => window(reading, days) == Some((from as int, to as int)),
            None => window(reading, days) is None,
        },
{
    let now: i128 = match reading {
        Ok(seconds) => seconds as i128,
        Err(until) => -(until as i128),
    };
    let from: i128 = now - BACKDATE as i128;
    let to: i128 = now + (days as i128) * 86400;
    if from >= FIRST_SECOND as i128 && to <= LAST_SECOND as i128 {
        Some((from as i64, to as i64))
    } else {
        None
    }
}

/// The profile of an identity: a signing key for either side of a handshake,
/// because one identity serves for host and for client authentication,
/// depending on which side generated it.
pub open spec fn identity_profile(
    common_name: Seq<char>,
    sans: Seq<Seq<char>>,
    not_before: int,
    not_after: int,
) -> ProfileView {
    ProfileView {
        common_name,
        sans,
        usages: seq![KeyUsage::DigitalSignature],
        purposes: seq![Purpose::ServerAuth, Purpose::ClientAuth],
        not_before: not_before as i64,
        not_after: not_after as i64,
    }
}

/// What is signed for an identity with this key.
pub open spec fn signed_identity(
    key: Seq<char>,
    common_name: Seq<char>,
    sans: Seq<Seq<char>>,
    not_before: int,
    not_after: int,
) -> Option<Seq<char>> {
    signed_certificate(key, identity_profile(common_name, sans, not_before, not_after))
}

/// A self-signed identity with the private key in `key`. Returns
/// `(certificate_pem, private_key_pem)`: the certificate is the one signed with
/// that very key.
pub fn identity_with_key(
    key: String,
    common_name: &str,
    sans: &Vec<String>,
    not_before: i64,
    not_after: i64,
) -> (r: Result<(String, String), IdentityError>)
    requires
        FIRST_SECOND <= not_before <= LAST_SECOND,
        FIRST_SECOND <= not_after <= LAST_SECOND,
    ensures
        ({
            let signed = signed_identity(
                key@,
                common_name@,
                texts(sans@),
                not_before as int,
                not_after as int,
            );
            match r {
                Ok((cert, k)) => {
                    &&& names_usable(texts(sans@))
                    &&& signed == Some(cert@)
                    &&& k@ == key@
                    &&& cert@.len() <= PEM_LIMIT ==> holds_window(cert@, not_before, not_after)
                },
                Err(IdentityError::Names(_)) => !names_usable(texts(sans@)),
                Err(IdentityError::Signing(_)) => names_usable(texts(sans@)) && signed is None,
                Err(_) => false,
            }
        }),
{
    match check_names(sans) {
        Ok(()) => {},
        Err(e) => return Err(IdentityError::Names(rcgen_error_text(&e))),
    }
    let profile = Profile {
        common_name: common_name.to_owned(),
        sans: copy_texts(sans),
        usages: vec![KeyUsage::DigitalSignature],
        purposes: vec![Purpose::ServerAuth, Purpose::ClientAuth],
        not_before,
        not_after,
    };
    assert(profile@ =~= identity_profile(
        common_name@,
        texts(sans@),
        not_before as int,
        not_after as int,
    ));
    match self_signed_pem(key.as_str(), &profile) {
        Ok(cert) => Ok((cert, key)),
        Err(e) => Err(IdentityError::Signing(rcgen_error_text(&e))),
    }
}

/// Generate a fresh self-signed identity with an explicit validity window.
/// Returns `(certificate_pem, private_key_pem)`: the certificate is the one
/// signed with that very key, and the two can be loaded again.
///
/// The key is drawn at random, and no key may be had; what becomes of each key
/// is what [`identity_with_key`] says.
pub fn generate_within(
    common_name: &str,
    sans: &Vec<String>,
    not_before: i64,
    not_after: i64,
) -> (r: Result<(String, String), IdentityError>)
    requires
        FIRST_SECOND <= not_before <= LAST_SECOND,
        FIRST_SECOND <= not_after <= LAST_SECOND,
    ensures
        match r {
            Ok((cert, key)) => {
                &&& names_usable(texts(sans@))
                &&& signed_identity(
                    key@,
                    common_name@,
                    texts(sans@),
                    not_before as int,
                    not_after as int,
                ) == Some(cert@)
                &&& cert@.len() <= PEM_LIMIT ==> holds_window(cert@, not_before, not_after)
                    && loadable(encode_utf8(cert@), encode_utf8(key@))
            },
            Err(IdentityError::Key(_)) => true,
            Err(IdentityError::Names(_)) => !names_usable(texts(sans@)),
            Err(IdentityError::Signing(_)) => names_usable(texts(sans@)) && exists|key: Seq<char>|
                #[trigger] signed_identity(
                    key,
                    common_name@,
                    texts(sans@),
                    not_before as int,
                    not_after as int,
                ) is None,
            Err(IdentityError::Window) => false,
        },
{
    match new_key_pem() {
        Ok(key) => identity_with_key(key, common_name, sans, not_before, not_after),
        Err(e) => Err(IdentityError::Key(rcgen_error_text(&e))),
    }
}

/// Generate a fresh self-signed Ed25519 identity valid for `days` days at a
/// given reading of the clock. Returns `(certificate_pem, private_key_pem)`.
pub fn generate_identity_at(
    reading: Result<u64, u64>,
    common_name: &str,
    sans: &Vec<String>,
    days: u32,
) -> (r: Result<(String, String), IdentityError>)
    ensures
        window(reading, days) is None <==> r matches Err(IdentityError::Window),
        window(reading, days) matches Some((from, to)) ==> match r {
            Ok((cert, key)) => {
                &&& names_usable(texts(sans@))
                &&& signed_identity(key@, common_name@, texts(sans@), from, to) == Some(cert@)
                &&& cert@.len() <= PEM_LIMIT ==> holds_window(cert@, from as i64, to as i64)
                    && loadable(encode_utf8(cert@), encode_utf8(key@))
            },
            Err(IdentityError::Key(_)) => true,
            Err(IdentityError::Names(_)) => !names_usable(texts(sans@)),
            Err(IdentityError::Signing(_)) => names_usable(texts(sans@)) && exists|key: Seq<char>|
                #[trigger] signed_identity(key, common_name@, texts(sans@), from, to) is None,
            Err(IdentityError::Window) => false,
        },
{
    match identity_window(reading, days) {
        None => Err(IdentityError::Window),
        Some((from, to)) => generate_within(common_name, sans, from, to),
    }
}

/// Is there a key with which nothing can be signed for an identity that is made
/// at this clock reading?
pub open spec fn may_not_sign(
    reading: Result<u64, u64>,
    days: u32,
    common_name: Seq<char>,
    sans: Seq<Seq<char>>,
) -> bool {
    match window(reading, days) {
        Some((from, to)) => exists|key: Seq<char>|
            #[trigger] signed_identity(key, common_name, sans, from, to) is None,
        None => false,
    }
}

/// Generate a fresh self-signed Ed25519 identity valid for `days` days from
/// now. Returns `(certificate_pem, private_key_pem)`. Fails if key generation
/// or self-signing fails.
///
/// What the clock shows is not known; what becomes of each reading is what
/// [`generate_identity_at`] says.
pub fn generate_identity(common_name: &str, sans: &Vec<String>, days: u32) -> (r: Result<
    (String, String),
    IdentityError,
>)
    ensures
        match r {
            Ok((cert, key)) => {
                &&& names_usable(texts(sans@))
                &&& exists|reading: Result<u64, u64>|
                    match #[trigger] window(reading, days) {
                        Some((from, to)) => {
                            &&& signed_identity(key@, common_name@, texts(sans@), from, to) == Some(
                                cert@,
                            )
                            &&& cert@.len() <= PEM_LIMIT ==> holds_window(
                                cert@,
                                from as i64,
                                to as i64,
                            ) && loadable(encode_utf8(cert@), encode_utf8(key@))
                        },
                        None => false,
                    }
            },
            Err(IdentityError::Key(_)) => exists|reading: Result<u64, u64>|
                #[trigger] window(reading, days) is Some,
            Err(IdentityError::Names(_)) => !names_usable(texts(sans@)),
            Err(IdentityError::Signing(_)) => names_usable(texts(sans@)) && exists|
                reading: Result<u64, u64>,
            | #[trigger] may_not_sign(reading, days, common_name@, texts(sans@)),
            Err(IdentityError::Window) => exists|reading: Result<u64, u64>|
                #[trigger] window(reading, days) is None,
        },
{
    let reading = read_clock();
    let r = generate_identity_at(reading, common_name, sans, days);
    assert(r matches Err(IdentityError::Signing(_)) ==> may_not_sign(
        reading,
        days,
        common_name@,
        texts(sans@),
    ));
    r
}

/// A certificate is valid from the first second of the window it was made for
/// to the last, and at no other second.
pub proof fn law_window_is_kept(pem: Seq<char>, not_before: i64, not_after: i64, now: u64)
    requires
        holds_window(pem, not_before, not_after),
        now <= LAST_SECOND,
    ensures
        validity(certificate_in(pem), now) is NotValidYet <==> now < not_before,
        validity(certificate_in(pem), now) is Valid <==> not_before <= now <= not_after,
        validity(certificate_in(pem), now) is Expired <==> not_before <= now && not_after < now,
{
    assert(instant(now).nanos == now * 1000000000);
    assert(written(not_before).nanos == not_before * 1000000000);
    assert(written(not_after).nanos == not_after * 1000000000);
}

/// An identity made for `days` days is valid from an hour before it was made
/// until they have passed.
pub proof fn law_identity_lasts_its_days(pem: Seq<char>, made: u64, days: u32, now: u64)
    requires
        window(Ok(made), days) matches Some((from, to)) && holds_window(pem, from as i64, to as i64),
        now <= LAST_SECOND,
    ensures
        validity(certificate_in(pem), now) is Valid <==> made - BACKDATE <= now <= made + days
            * 86400,
{
    let w = window(Ok(made), days)->0;
    law_window_is_kept(pem, w.0 as i64, w.1 as i64, now);
}

// ---------------------------------------------------------------------------
// Replacing a file
// ---------------------------------------------------------------------------

/// The permission bits of a file that only its owner may read.
pub const PRIVATE_MODE: u32 = 0o600;

/// The permission bits of a world-readable file.
pub const PUBLIC_MODE: u32 = 0o644;

/// The name of the temporary file that stands in for `file_name` until it is
/// complete.
pub open spec fn temporary(file_name: Seq<char>, pid: u32) -> Seq<char> {
    "."@ + file_name + ".tmp."@ + decimal(pid as nat)
}

/// The name of the temporary file that stands in for `file_name` until it is
/// complete.
pub fn temporary_name(file_name: &str, pid: u32) -> (out: String)
    ensures
        out@ == temporary(file_name@, pid),
{
    let mut out = ".".to_owned();
    out.append(file_name);
    out.append(".tmp.");
    out.append(decimal_text(pid as u64).as_str());
    out
}

/// What to do next while a file is replaced.
///
/// Truncating the destination in place would let a crash or a short write
/// destroy the only copy of a host key, and would follow a planted symlink.
/// Instead a fresh temporary file is created in the same directory, given its
/// final mode before any data reaches it, flushed to disk, and then renamed
/// over the destination. The directory is flushed afterwards so that the rename
/// itself survives a power cut.
#[derive(Debug, Clone, Copy, PartialEq, Eq, Structural)]
pub enum WriteStep {
    /// Create the directory.
    CreateDirectory,
    /// Remove what an earlier crash may have left in the temporary file's place.
    RemoveStale,
    /// Create the temporary file, which must not exist, with its final mode.
    CreateTemporary,
    /// Write the contents to the temporary file.
    WriteContents,
    /// Flush the temporary file to disk.
    Flush,
    /// Rename the temporary file over the destination.
    Rename,
    /// Flush the directory.
    FlushDirectory,
    /// Remove the temporary file and report the failure of the step named.
    Abandon(FailedStep),
    /// The destination holds the new contents.
    Done,
    /// The destination is as it was; the step named failed.
    Failed(FailedStep),
}

/// A step whose failure leaves the destination as it was.
#[derive(Debug, Clone, Copy, PartialEq, Eq, Structural)]
pub enum FailedStep {
    CreateDirectory,
    CreateTemporary,
    WriteContents,
    Flush,
    Rename,
}

impl WriteStep {
    /// Is there nothing left to do?
    pub open spec fn finished(self) -> bool {
        self is Done || self is Failed
    }

    /// The steps that still lie ahead, at most.
    pub open spec fn ahead(self) -> nat {
        match self {
            WriteStep::CreateDirectory => 8,
            WriteStep::RemoveStale => 7,
            WriteStep::CreateTemporary => 6,
            WriteStep::WriteContents => 5,
            WriteStep::Flush => 4,
            WriteStep::Rename => 3,
            WriteStep::FlushDirectory => 1,
            WriteStep::Abandon(_) => 1,
            WriteStep::Done => 0,
            WriteStep::Failed(_) => 0,
        }
    }

    /// The step after one that succeeded, or failed. A missing leftover and a
    /// directory that cannot be flushed are no failures.
    pub open spec fn following(self, ok: bool) -> WriteStep {
        match self {
            WriteStep::CreateDirectory => if ok {
                WriteStep::RemoveStale
            } else {
                WriteStep::Failed(FailedStep::CreateDirectory)
            },
            WriteStep::RemoveStale => WriteStep::CreateTemporary,
            WriteStep::CreateTemporary => if ok {
                WriteStep::WriteContents
            } else {
                WriteStep::Abandon(FailedStep::CreateTemporary)
            },
            WriteStep::WriteContents => if ok {
                WriteStep::Flush
            } else {
                WriteStep::Abandon(FailedStep::WriteContents)
            },
            WriteStep::Flush => if ok {
                WriteStep::Rename
            } else {
                WriteStep::Abandon(FailedStep::Flush)
            },
            WriteStep::Rename => if ok {
                WriteStep::FlushDirectory
            } else {
                WriteStep::Abandon(FailedStep::Rename)
            },
            WriteStep::FlushDirectory => WriteStep::Done,
            WriteStep::Abandon(step) => WriteStep::Failed(step),
            WriteStep::Done => WriteStep::Done,
            WriteStep::Failed(step) => WriteStep::Failed(step),
        }
    }

    /// The step after one that succeeded, or failed.
    pub fn next(self, ok: bool) -> (step: WriteStep)
        ensures
            step == self.following(ok),
            !self.finished() ==> step.ahead() < self.ahead(),
    {
        match self {
            WriteStep::CreateDirectory => if ok {
                WriteStep::RemoveStale
            } else {
                WriteStep::Failed(FailedStep::CreateDirectory)
            },
            WriteStep::RemoveStale => WriteStep::CreateTemporary,
            WriteStep::CreateTemporary => if ok {
                WriteStep::WriteContents
            } else {
                WriteStep::Abandon(FailedStep::CreateTemporary)
            },
            WriteStep::WriteContents => if ok {
                WriteStep::Flush
            } else {
                WriteStep::Abandon(FailedStep::WriteContents)
            },
            WriteStep::Flush => if ok {
                WriteStep::Rename
            } else {
                WriteStep::Abandon(FailedStep::Flush)
            },
            WriteStep::Rename => if ok {
                WriteStep::FlushDirectory
            } else {
                WriteStep::Abandon(FailedStep::Rename)
            },
            WriteStep::FlushDirectory => WriteStep::Done,
            WriteStep::Abandon(step) => WriteStep::Failed(step),
            WriteStep::Done => WriteStep::Done,
            WriteStep::Failed(step) => WriteStep::Failed(step),
        }
    }
}

/// The steps taken from the beginning when the steps so far turned out as
/// `outcomes` says.
pub open spec fn write_after(outcomes: Seq<bool>) -> WriteStep
    decreases outcomes.len(),
{
    if outcomes.len() == 0 {
        WriteStep::CreateDirectory
    } else {
        write_after(outcomes.drop_last()).following(outcomes.last())
    }
}

/// The destination is only ever replaced by a file that was created afresh,
/// completely written and flushed: when it is time to rename, exactly those
/// five steps lie behind, and the last three of them succeeded. And the
/// destination holds the new contents exactly when the rename succeeded.
pub proof fn law_only_complete_files_replace(outcomes: Seq<bool>)
    ensures
        write_after(outcomes) is Rename <==> outcomes.len() == 5 && outcomes[0] && outcomes[2]
            && outcomes[3] && outcomes[4],
        write_after(outcomes) is FlushDirectory || write_after(outcomes) is Done
            <==> outcomes.len() >= 6 && outcomes[0] && outcomes[2] && outcomes[3] && outcomes[4]
            && outcomes[5],
{
    lemma_write_progress(outcomes);
}

/// Where the steps stand is told by the outcomes so far.
proof fn lemma_write_progress(outcomes: Seq<bool>)
    ensures
        ({
            let n = outcomes.len();
            match write_after(outcomes) {
                WriteStep::CreateDirectory => n == 0,
                WriteStep::RemoveStale => n == 1 && outcomes[0],
                WriteStep::CreateTemporary => n == 2 && outcomes[0],
                WriteStep::WriteContents => n == 3 && outcomes[0] && outcomes[2],
                WriteStep::Flush => n == 4 && outcomes[0] && outcomes[2] && outcomes[3],
                WriteStep::Rename => n == 5 && outcomes[0] && outcomes[2] && outcomes[3]
                    && outcomes[4],
                WriteStep::FlushDirectory => n == 6 && outcomes[0] && outcomes[2] && outcomes[3]
                    && outcomes[4] && outcomes[5],
                WriteStep::Done => n >= 7 && outcomes[0] && outcomes[2] && outcomes[3]
                    && outcomes[4] && outcomes[5],
                _ => {
                    ||| n >= 1 && !outcomes[0]
                    ||| n >= 3 && !outcomes[2]
                    ||| n >= 4 && !outcomes[3]
                    ||| n >= 5 && !outcomes[4]
                    ||| n >= 6 && !outcomes[5]
                },
            }
        }),
    decreases outcomes.len(),
{
    if outcomes.len() > 0 {
        lemma_write_progress(outcomes.drop_last());
    }
}

// ---------------------------------------------------------------------------
// What it all comes to
// ---------------------------------------------------------------------------

/// A certificate stands by its window alone: before it begins it is not valid
/// yet, after it has ended it has expired, and in between it is valid, at any
/// second up to the end of the year 9999. What cannot be parsed never is.
pub proof fn law_window_decides(c: CertificateView, now: u64)
    requires
        now <= 253402300799,
    ensures
        now * 1000000000 < c.not_before.nanos ==> validity(Some(c), now) is NotValidYet,
        c.not_before.nanos < now * 1000000000 && c.not_after.nanos < now * 1000000000 ==> validity(
            Some(c),
            now,
        ) is Expired,
        c.not_before.nanos < now * 1000000000 < c.not_after.nanos ==> validity(Some(c), now)
            is Valid,
        validity(Some(c), now) is Valid ==> c.not_before.nanos <= now * 1000000000
            <= c.not_after.nanos,
        validity(None, now) is BadEncoding,
{
    assert(instant(now).nanos == now * 1000000000);
}

/// A server is trusted exactly if it shows a certificate whose window holds and
/// whose key has the pinned fingerprint: no other key will do, however valid its
/// certificate, and no window that does not hold, be the key the right one.
pub proof fn law_only_the_pinned_key_is_trusted(
    c: CertificateView,
    pinned: Seq<u8>,
    now: u64,
)
    requires
        now <= 253402300799,
    ensures
        sha256(c.spki) != pinned ==> !pin_holds(Some(c), pinned, now),
        now * 1000000000 < c.not_before.nanos || c.not_after.nanos < now * 1000000000
            ==> !pin_holds(Some(c), pinned, now),
        sha256(c.spki) == pinned && c.not_before.nanos < now * 1000000000 < c.not_after.nanos
            ==> pin_holds(Some(c), pinned, now),
        !pin_holds(None, pinned, now),
{
    law_window_decides(c, now);
}

/// A key file counts as shared exactly if its group or anybody else may do
/// anything with it; what its owner may do does not matter. A file that was
/// written as private is not shared.
pub proof fn law_shared_files(mode: u32)
    ensures
        shared_mode(mode) <==> mode % 64 != 0,
        !shared_mode(PRIVATE_MODE),
{
    assert(mode & 0o077 != 0 <==> mode % 64 != 0) by (bit_vector);
    assert(0o600u32 & 0o077 == 0) by (bit_vector);
}

/// An identity is made to last from an hour before now until its days are over.
pub proof fn law_identity_window(made: u64, days: u32)
    requires
        made + days * 86400 <= 253402300799,
    ensures
        window(Ok(made), days) == Some((made - 3600, made + days * 86400)),
{
}

/// The certificate of an identity carries the name and the names it was asked
/// for, signs, and serves on either side of a handshake.
pub proof fn law_identity_profile(
    common_name: Seq<char>,
    sans: Seq<Seq<char>>,
    not_before: i64,
    not_after: i64,
)
    ensures
        ({
            let p = identity_profile(common_name, sans, not_before as int, not_after as int);
            &&& p.common_name == common_name
            &&& p.sans == sans
            &&& p.not_before == not_before
            &&& p.not_after == not_after
            &&& p.usages.contains(KeyUsage::DigitalSignature)
            &&& p.purposes.contains(Purpose::ServerAuth)
            &&& p.purposes.contains(Purpose::ClientAuth)
        }),
{
    let p = identity_profile(common_name, sans, not_before as int, not_after as int);
    assert(p.usages[0] == KeyUsage::DigitalSignature);
    assert(p.purposes[0] == Purpose::ServerAuth);
    assert(p.purposes[1] == Purpose::ClientAuth);
}

/// The steps of replacing a file come in this order as long as each succeeds,
/// and no step is left out: the directory, the leftover, the fresh file, its
/// contents, the flush, the rename, the directory again.
pub proof fn law_write_steps_in_order(stale: bool, synced: bool)
    ensures
        write_after(seq![]) is CreateDirectory,
        write_after(seq![true]) is RemoveStale,
        write_after(seq![true, stale]) is CreateTemporary,
        write_after(seq![true, stale, true]) is WriteContents,
        write_after(seq![true, stale, true, true]) is Flush,
        write_after(seq![true, stale, true, true, true]) is Rename,
        write_after(seq![true, stale, true, true, true, true]) is FlushDirectory,
        write_after(seq![true, stale, true, true, true, true, synced]) is Done,
{
    reveal_with_fuel(write_after, 8);
    assert(seq![true].drop_last() =~= seq![]);
    assert(seq![true, stale].drop_last() =~= seq![true]);
    assert(seq![true, stale, true].drop_last() =~= seq![true, stale]);
    assert(seq![true, stale, true, true].drop_last() =~= seq![true, stale, true]);
    assert(seq![true, stale, true, true, true].drop_last() =~= seq![true, stale, true, true]);
    assert(seq![true, stale, true, true, true, true].drop_last() =~= seq![
        true,
        stale,
        true,
        true,
        true,
    ]);
    assert(seq![true, stale, true, true, true, true, synced].drop_last() =~= seq![
        true,
        stale,
        true,
        true,
        true,
        true,
    ]);
}

/// A write that fails once there is a temporary file removes that file, and ends
/// by naming the step that failed.
pub proof fn law_failed_writes_are_cleaned_up(step: WriteStep)
    ensures
        step is CreateTemporary || step is WriteContents || step is Flush || step is Rename
            ==> step.following(false) is Abandon,
        forall|why: FailedStep, ok: bool| #[trigger]
            WriteStep::Abandon(why).following(ok) == WriteStep::Failed(why),
        WriteStep::CreateTemporary.following(false) == WriteStep::Abandon(
            FailedStep::CreateTemporary,
        ),
        WriteStep::WriteContents.following(false) == WriteStep::Abandon(FailedStep::WriteContents),
        WriteStep::Flush.following(false) == WriteStep::Abandon(FailedStep::Flush),
        WriteStep::Rename.following(false) == WriteStep::Abandon(FailedStep::Rename),
{
}

/// Different processes use different temporary files, and none of them is the
/// file itself.
pub proof fn law_temporary_files_differ(file_name: Seq<char>, a: u32, b: u32)
    requires
        a != b,
    ensures
        temporary(file_name, a) != temporary(file_name, b),
        temporary(file_name, a).len() > file_name.len(),
        temporary(file_name, a)[0] == '.',
{
    reveal_strlit(".");
    reveal_strlit(".tmp.");
    let front = "."@ + file_name + ".tmp."@;
    assert(temporary(file_name, a).skip(front.len() as int) =~= decimal(a as nat));
    assert(temporary(file_name, b).skip(front.len() as int) =~= decimal(b as nat));
    crate::text::law_decimals_differ(a as nat, b as nat);
}

/// A pair of files holds an identity exactly if the one has a certificate and
/// nothing unreadable, and the other a key.
pub proof fn law_what_can_be_loaded(cert_pem: Seq<u8>, key_pem: Seq<u8>)
    ensures
        pem_sections(cert_pem).len() == 0 ==> !loadable(cert_pem, key_pem),
        (exists|i: int|
            0 <= i < pem_sections(cert_pem).len() && #[trigger] pem_sections(cert_pem)[i] is None)
            ==> !loadable(cert_pem, key_pem),
        pem_key(key_pem) is None || pem_key(key_pem)->0 is None ==> !loadable(cert_pem, key_pem),
        pem_sections(cert_pem).len() == 1 && pem_sections(cert_pem)[0] is Some && pem_key(key_pem)
            is Some && pem_key(key_pem)->0 is Some ==> loadable(cert_pem, key_pem),
{
}

/// Names can be used exactly if every character of every one of them is ASCII.
pub proof fn law_usable_names(sans: Seq<Seq<char>>)
    ensures
        names_usable(sans) <==> forall|i: int, k: int|
            0 <= i < sans.len() && 0 <= k < sans[i].len() ==> '\0' <= (#[trigger] sans[i][k])
                <= '\u{7f}',
{
    if names_usable(sans) {
        assert forall|i: int, k: int| 0 <= i < sans.len() && 0 <= k < sans[i].len() implies '\0'
            <= (#[trigger] sans[i][k]) <= '\u{7f}' by {
            assert(vstd::utf8::is_ascii_chars(sans[i]));
        }
    }
}

/// What is signed for an identity is signed with its own key, for its own names
/// and its own window.
pub proof fn law_identities_are_self_signed(
    key: Seq<char>,
    profile: ProfileView,
)
    requires
        profile.usages == seq![KeyUsage::DigitalSignature],
        profile.purposes == seq![Purpose::ServerAuth, Purpose::ClientAuth],
    ensures
        signed_identity(
            key,
            profile.common_name,
            profile.sans,
            profile.not_before as int,
            profile.not_after as int,
        ) == signed_certificate(key, profile),
{
    assert(identity_profile(
        profile.common_name,
        profile.sans,
        profile.not_before as int,
        profile.not_after as int,
    ) =~= profile);
}

} // verus!
