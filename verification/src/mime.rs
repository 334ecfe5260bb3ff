//! The MIME model used for `Accept` negotiation: closed vocabularies of
//! media types, concrete mime types and structured-syntax suffixes, and the
//! validated `ContentType` tuple with its quality weight.
//!
//! A quality (`;q=`) value is held in thousandths as an integer, so `1.0`
//! is `1000` and `0.5` is `500`; the accepted numeral is an unsigned
//! decimal with an optional fraction, truncated past the third fraction
//! digit.
use crate::text::{spec_split, split, str_eq};
use vstd::prelude::*;

verus! {

/// The top-level kind of a MIME type, or `All` for `*`.
#[derive(PartialEq, Eq, Structural, Debug, Clone, Copy)]
pub enum MediaType {
    All,
    Application,
    Audio,
    Font,
    Image,
    Model,
    Text,
    Video,
}

/// The closed set of concrete subtypes, or `All` for `*`. Each value other
/// than `All` belongs to exactly one `MediaType`.
#[derive(PartialEq, Eq, Structural, Debug, Clone, Copy)]
pub enum MimeType {
    All,
    JSON,
    OctetStream,
    XHTML,
    XML,
    APNG,
    AVIF,
    GIF,
    JPEG,
    PNG,
    SVG,
    Webp,
    CSS,
    HTML,
    Javascript,
    Plain,
}

/// An optional structured-syntax suffix (the `+json` of `application/ld+json`).
/// An unrecognized suffix token degrades to `NoSuffix`; it never fails a parse.
#[derive(PartialEq, Eq, Structural, Debug, Clone, Copy)]
pub enum MimeSuffix {
    NoSuffix,
    GZip,
    Json,
    WbXML,
    XML,
    Zip,
}

/// A validated `(media, mime, suffix, quality)` tuple. The quality is in
/// thousandths; `1000` stands for the default `1.0`. A value of this type
/// returned by `parse` always satisfies the media/mime consistency
/// invariant checked by `validate`.
#[derive(PartialEq, Eq, Structural, Debug, Clone, Copy)]
pub struct ContentType(pub MediaType, pub MimeType, pub MimeSuffix, pub u32);

/// What `MediaType::parse` returns: the lower-case keyword vocabulary.
pub open spec fn spec_media_type(s: Seq<char>) -> Option<MediaType> {
    if s == "*"@ {
        Some(MediaType::All)
    } else if s == "application"@ {
        Some(MediaType::Application)
    } else if s == "audio"@ {
        Some(MediaType::Audio)
    } else if s == "font"@ {
        Some(MediaType::Font)
    } else if s == "image"@ {
        Some(MediaType::Image)
    } else if s == "model"@ {
        Some(MediaType::Model)
    } else if s == "text"@ {
        Some(MediaType::Text)
    } else if s == "video"@ {
        Some(MediaType::Video)
    } else {
        None
    }
}

/// What `MimeType::parse` returns: the lower-case keyword vocabulary.
pub open spec fn spec_mime_type(s: Seq<char>) -> Option<MimeType> {
    if s == "*"@ {
        Some(MimeType::All)
    } else if s == "json"@ {
        Some(MimeType::JSON)
    } else if s == "octet-stream"@ {
        Some(MimeType::OctetStream)
    } else if s == "xhtml"@ {
        Some(MimeType::XHTML)
    } else if s == "xml"@ {
        Some(MimeType::XML)
    } else if s == "apng"@ {
        Some(MimeType::APNG)
    } else if s == "avif"@ {
        Some(MimeType::AVIF)
    } else if s == "gif"@ {
        Some(MimeType::GIF)
    } else if s == "jpeg"@ {
        Some(MimeType::JPEG)
    } else if s == "png"@ {
        Some(MimeType::PNG)
    } else if s == "svg"@ {
        Some(MimeType::SVG)
    } else if s == "webp"@ {
        Some(MimeType::Webp)
    } else if s == "css"@ {
        Some(MimeType::CSS)
    } else if s == "html"@ {
        Some(MimeType::HTML)
    } else if s == "javascript"@ {
        Some(MimeType::Javascript)
    } else if s == "plain"@ {
        Some(MimeType::Plain)
    } else {
        None
    }
}

/// What `MimeSuffix::parse` returns; unknown tokens map to `NoSuffix`.
pub open spec fn spec_mime_suffix(s: Seq<char>) -> MimeSuffix {
    if s == "gzip"@ {
        MimeSuffix::GZip
    } else if s == "json"@ {
        MimeSuffix::Json
    } else if s == "wbxml"@ {
        MimeSuffix::WbXML
    } else if s == "xml"@ {
        MimeSuffix::XML
    } else if s == "zip"@ {
        MimeSuffix::Zip
    } else {
        MimeSuffix::NoSuffix
    }
}

/// The one `MediaType` each concrete `MimeType` belongs to.
pub open spec fn spec_associated_media(m: MimeType) -> MediaType {
    match m {
        MimeType::All => MediaType::All,
        MimeType::JSON => MediaType::Application,
        MimeType::OctetStream => MediaType::Application,
        MimeType::XHTML => MediaType::Application,
        MimeType::XML => MediaType::Application,
        MimeType::APNG => MediaType::Image,
        MimeType::AVIF => MediaType::Image,
        MimeType::GIF => MediaType::Image,
        MimeType::JPEG => MediaType::Image,
        MimeType::PNG => MediaType::Image,
        MimeType::SVG => MediaType::Image,
        MimeType::Webp => MediaType::Image,
        MimeType::CSS => MediaType::Text,
        MimeType::HTML => MediaType::Text,
        MimeType::Javascript => MediaType::Text,
        MimeType::Plain => MediaType::Text,
    }
}

/// The media/mime consistency invariant: the media is `All`, or it is the
/// mime type's associated media.
pub open spec fn spec_consistent(ct: ContentType) -> bool {
    ct.0 == MediaType::All || ct.0 == spec_associated_media(ct.1)
}

/// What `ContentType::validate` returns.
pub open spec fn spec_validate(ct: ContentType) -> Option<ContentType> {
    if spec_consistent(ct) {
        Some(ct)
    } else {
        None
    }
}

impl MediaType {
    /// Parse a media token against the closed vocabulary; any other token is
    /// a failure.
    pub fn parse(media_type: &str) -> (r: Option<Self>)
        ensures
            r == spec_media_type(media_type@),
    {
        if str_eq(media_type, "*") {
            Some(MediaType::All)
        } else if str_eq(media_type, "application") {
            Some(MediaType::Application)
        } else if str_eq(media_type, "audio") {
            Some(MediaType::Audio)
        } else if str_eq(media_type, "font") {
            Some(MediaType::Font)
        } else if str_eq(media_type, "image") {
            Some(MediaType::Image)
        } else if str_eq(media_type, "model") {
            Some(MediaType::Model)
        } else if str_eq(media_type, "text") {
            Some(MediaType::Text)
        } else if str_eq(media_type, "video") {
            Some(MediaType::Video)
        } else {
            None
        }
    }
}

impl MimeType {
    /// Parse a mime token against the closed vocabulary; any other token is
    /// a failure.
    pub fn parse(mime_type: &str) -> (r: Option<Self>)
        ensures
            r == spec_mime_type(mime_type@),
    {
        if str_eq(mime_type, "*") {
            Some(MimeType::All)
        } else if str_eq(mime_type, "json") {
            Some(MimeType::JSON)
        } else if str_eq(mime_type, "octet-stream") {
            Some(MimeType::OctetStream)
        } else if str_eq(mime_type, "xhtml") {
            Some(MimeType::XHTML)
        } else if str_eq(mime_type, "xml") {
            Some(MimeType::XML)
        } else if str_eq(mime_type, "apng") {
            Some(MimeType::APNG)
        } else if str_eq(mime_type, "avif") {
            Some(MimeType::AVIF)
        } else if str_eq(mime_type, "gif") {
            Some(MimeType::GIF)
        } else if str_eq(mime_type, "jpeg") {
            Some(MimeType::JPEG)
        } else if str_eq(mime_type, "png") {
            Some(MimeType::PNG)
        } else if str_eq(mime_type, "svg") {
            Some(MimeType::SVG)
        } else if str_eq(mime_type, "webp") {
            Some(MimeType::Webp)
        } else if str_eq(mime_type, "css") {
            Some(MimeType::CSS)
        } else if str_eq(mime_type, "html") {
            Some(MimeType::HTML)
        } else if str_eq(mime_type, "javascript") {
            Some(MimeType::Javascript)
        } else if str_eq(mime_type, "plain") {
            Some(MimeType::Plain)
        } else {
            None
        }
    }

    /// The one `MediaType` this concrete type belongs to.
    pub fn associated_media(&self) -> (r: MediaType)
        ensures
            r == spec_associated_media(*self),
    {
        match self {
            MimeType::All => MediaType::All,
            MimeType::JSON | MimeType::OctetStream | MimeType::XHTML | MimeType::XML => {
                MediaType::Application
            },
            MimeType::APNG | MimeType::AVIF | MimeType::GIF | MimeType::JPEG | MimeType::PNG
                | MimeType::SVG | MimeType::Webp => MediaType::Image,
            MimeType::CSS | MimeType::HTML | MimeType::Javascript | MimeType::Plain => {
                MediaType::Text
            },
        }
    }
}

impl MimeSuffix {
    /// Parse a suffix token; an unknown token becomes `MimeSuffix::NoSuffix`
    /// rather than failing.
    pub fn parse(suffix: &str) -> (r: Option<Self>)
        ensures
            r == Some(spec_mime_suffix(suffix@)),
    {
        Some(
            if str_eq(suffix, "gzip") {
                MimeSuffix::GZip
            } else if str_eq(suffix, "json") {
                MimeSuffix::Json
            } else if str_eq(suffix, "wbxml") {
                MimeSuffix::WbXML
            } else if str_eq(suffix, "xml") {
                MimeSuffix::XML
            } else if str_eq(suffix, "zip") {
                MimeSuffix::Zip
            } else {
                MimeSuffix::NoSuffix
            },
        )
    }
}

impl ContentType {
    /// Keep the value only when the media is `All` or matches the mime
    /// type's associated media.
    pub fn validate(self) -> (r: Option<Self>)
        ensures
            r == spec_validate(self),
    {
        if self.0 == MediaType::All {
            return Some(self);
        }
        if self.0 == self.1.associated_media() {
            Some(self)
        } else {
            None
        }
    }
}

/// `c` is an ASCII decimal digit.
pub open spec fn is_digit(c: char) -> bool {
    48 <= c as u32 && c as u32 <= 57
}

pub open spec fn digit_val(c: char) -> int {
    c as u32 - 48
}

pub open spec fn all_digits(s: Seq<char>) -> bool {
    forall|i: int| 0 <= i < s.len() ==> is_digit(s[i])
}

/// The value of a digit string read in base ten.
pub open spec fn digits_val(s: Seq<char>) -> int
    decreases s.len(),
{
    if s.len() == 0 {
        0
    } else {
        digits_val(s.take(s.len() - 1)) * 10 + digit_val(s[s.len() - 1])
    }
}

proof fn lemma_digits_val_nonneg(s: Seq<char>)
    requires
        all_digits(s),
    ensures
        digits_val(s) >= 0,
    decreases s.len(),
{
    if s.len() > 0 {
        assert(all_digits(s.take(s.len() - 1)));
        lemma_digits_val_nonneg(s.take(s.len() - 1));
    }
}

proof fn lemma_digits_val_mono(s: Seq<char>, i: int)
    requires
        all_digits(s),
        0 <= i <= s.len(),
    ensures
        digits_val(s.take(i)) <= digits_val(s),
    decreases s.len() - i,
{
    if i < s.len() {
        assert(all_digits(s.take(i)));
        lemma_digits_val_nonneg(s.take(i));
        assert(s.take(i + 1).take(i) =~= s.take(i));
        assert(digits_val(s.take(i + 1)) == digits_val(s.take(i)) * 10 + digit_val(s[i]));
        lemma_digits_val_mono(s, i + 1);
    } else {
        assert(s.take(i) =~= s);
    }
}

/// The first three fraction digits scaled to thousandths; digits past the
/// third are truncated away.
pub open spec fn frac_thousandths(s: Seq<char>) -> int {
    if s.len() == 0 {
        0
    } else if s.len() == 1 {
        digits_val(s) * 100
    } else if s.len() == 2 {
        digits_val(s) * 10
    } else {
        digits_val(s.take(3))
    }
}

/// What `parse_quality` returns: thousandths for a numeral of the shape
/// `digits` or `digits.digits` (either side of the dot may be empty, not
/// both), and nothing for any other shape or for a value above what `u32`
/// holds in thousandths.
pub open spec fn spec_quality(s: Seq<char>) -> Option<u32> {
    let parts = spec_split(s, "."@);
    if parts.len() == 1 && parts[0].len() > 0 && all_digits(parts[0]) {
        let v = digits_val(parts[0]) * 1000;
        if v <= u32::MAX {
            Some(v as u32)
        } else {
            None
        }
    } else if parts.len() == 2 && all_digits(parts[0]) && all_digits(parts[1]) && parts[0].len()
        + parts[1].len() > 0 {
        let v = digits_val(parts[0]) * 1000 + frac_thousandths(parts[1]);
        if v <= u32::MAX {
            Some(v as u32)
        } else {
            None
        }
    } else {
        None
    }
}

/// The base-ten value of `s` when `s` is all digits and the value fits a
/// `u32`; `None` when either fails.
fn parse_digits(s: &str) -> (r: Option<u64>)
    ensures
        match r {
            Some(v) => all_digits(s@) && v == digits_val(s@) && v <= u32::MAX,
            None => !all_digits(s@) || digits_val(s@) > u32::MAX,
        },
{
    let n = s.unicode_len();
    let mut acc: u64 = 0;
    for i in 0..n
        invariant
            n == s@.len(),
            all_digits(s@.take(i as int)),
            acc == digits_val(s@.take(i as int)),
            acc <= u32::MAX,
    {
        let c = s.get_char(i) as u32;
        if c < 48 || c > 57 {
            return None;
        }
        let d = (c - 48) as u64;
        let next = acc * 10 + d;
        proof {
            assert(s@.take(i + 1).take(i as int) =~= s@.take(i as int));
            assert(digits_val(s@.take(i + 1)) == acc * 10 + digit_val(s@[i as int]));
        }
        if next > 0xffff_ffff {
            proof {
                if all_digits(s@) {
                    lemma_digits_val_mono(s@, i + 1);
                }
            }
            return None;
        }
        acc = next;
    }
    proof {
        assert(s@.take(n as int) =~= s@);
    }
    Some(acc)
}

/// The fraction digits of a quality value as thousandths.
fn parse_frac(s: &str) -> (r: Option<u32>)
    ensures
        match r {
            Some(v) => all_digits(s@) && v == frac_thousandths(s@) && v <= 999,
            None => !all_digits(s@),
        },
{
    let n = s.unicode_len();
    let mut digits: Vec<u32> = Vec::new();
    for i in 0..n
        invariant
            n == s@.len(),
            all_digits(s@.take(i as int)),
            digits.len() == i,
            forall|j: int| 0 <= j < i ==> digits@[j] == digit_val(s@[j]),
    {
        let c = s.get_char(i) as u32;
        if c < 48 || c > 57 {
            return None;
        }
        digits.push(c - 48);
    }
    proof {
        assert(s@.take(n as int) =~= s@);
    }
    proof {
        assert(digits_val(Seq::<char>::empty()) == 0);
        if n >= 1 {
            assert(s@.take(1).take(0) =~= Seq::<char>::empty());
            assert(s@.take(1)[0] == s@[0]);
            assert(digits_val(s@.take(1)) == digits_val(s@.take(1).take(0)) * 10 + digit_val(
                s@.take(1)[0],
            ));
        }
        if n >= 2 {
            assert(s@.take(2).take(1) =~= s@.take(1));
            assert(s@.take(2)[1] == s@[1]);
            assert(digits_val(s@.take(2)) == digits_val(s@.take(2).take(1)) * 10 + digit_val(
                s@.take(2)[1],
            ));
        }
        if n >= 3 {
            assert(s@.take(3).take(2) =~= s@.take(2));
            assert(s@.take(3)[2] == s@[2]);
            assert(digits_val(s@.take(3)) == digits_val(s@.take(3).take(2)) * 10 + digit_val(
                s@.take(3)[2],
            ));
        }
    }
    if n == 0 {
        Some(0)
    } else if n == 1 {
        proof {
            assert(s@.take(1) =~= s@);
        }
        Some(digits[0] * 100)
    } else if n == 2 {
        proof {
            assert(s@.take(2) =~= s@);
        }
        Some((digits[0] * 10 + digits[1]) * 10)
    } else {
        Some(digits[0] * 100 + digits[1] * 10 + digits[2])
    }
}

/// Parse a `;q=` numeral into thousandths; `None` is a hard failure of the
/// containing content-type token.
pub fn parse_quality(s: &str) -> (r: Option<u32>)
    ensures
        r == spec_quality(s@),
{
    proof {
        reveal_strlit(".");
    }
    let parts = split(s, ".");
    proof {
        assert(parts.deep_view()[0] == parts@[0]@);
    }
    if parts.len() == 1 {
        let p0 = parts[0].as_str();
        if p0.unicode_len() == 0 {
            return None;
        }
        match parse_digits(p0) {
            Some(v) => {
                let scaled = v * 1000;
                if scaled > 0xffff_ffff {
                    None
                } else {
                    Some(scaled as u32)
                }
            },
            None => None,
        }
    } else if parts.len() == 2 {
        proof {
            assert(parts.deep_view()[1] == parts@[1]@);
        }
        let ip = parts[0].as_str();
        let fp = parts[1].as_str();
        match (parse_digits(ip), parse_frac(fp)) {
            (Some(iv), Some(fv)) => {
                if ip.unicode_len() == 0 && fp.unicode_len() == 0 {
                    return None;
                }
                let total = iv * 1000 + (fv as u64);
                if total > 0xffff_ffff {
                    None
                } else {
                    Some(total as u32)
                }
            },
            _ => None,
        }
    } else {
        None
    }
}

/// What `ContentType::parse` returns for a whole token.
pub open spec fn spec_content_type(s: Seq<char>) -> Option<ContentType> {
    let parts = spec_split(s, ";q="@);
    let q = if parts.len() > 1 {
        spec_quality(parts[1])
    } else {
        Some(1000u32)
    };
    match q {
        None => None,
        Some(qv) => {
            let media_parts = spec_split(parts[0], "/"@);
            if media_parts.len() < 2 {
                None
            } else {
                let mime_parts = spec_split(media_parts[1], "+"@);
                let suffix = if mime_parts.len() > 1 {
                    spec_mime_suffix(mime_parts[1])
                } else {
                    MimeSuffix::NoSuffix
                };
                match spec_media_type(media_parts[0]) {
                    None => None,
                    Some(media) => match spec_mime_type(mime_parts[0]) {
                        None => None,
                        Some(mime) => spec_validate(ContentType(media, mime, suffix, qv)),
                    },
                }
            }
        },
    }
}

/// The content types that survive parsing each comma-separated part.
pub open spec fn spec_cts(parts: Seq<Seq<char>>) -> Seq<ContentType>
    decreases parts.len(),
{
    if parts.len() == 0 {
        Seq::empty()
    } else {
        match spec_content_type(parts[0]) {
            Some(ct) => seq![ct] + spec_cts(parts.skip(1)),
            None => spec_cts(parts.skip(1)),
        }
    }
}

/// What `ContentType::parse_many` collects from a compound `Accept` value.
pub open spec fn spec_parse_many(s: Seq<char>) -> Seq<ContentType> {
    spec_cts(spec_split(s, ","@))
}

impl ContentType {
    /// Parse one `media/mime[+suffix][;q=value]` token. An unknown media or
    /// mime keyword, a malformed quality numeral, a missing `/`, or a
    /// media/mime mismatch is a hard failure of this token.
    pub fn parse(content_type: String) -> (r: Option<Self>)
        ensures
            r == spec_content_type(content_type@),
    {
        let s = content_type.as_str();
        proof {
            reveal_strlit(";q=");
        }
        let parts = split(s, ";q=");
        proof {
            assert(parts.deep_view()[0] == parts@[0]@);
        }
        let q = if parts.len() > 1 {
            proof {
                assert(parts.deep_view()[1] == parts@[1]@);
            }
            match parse_quality(parts[1].as_str()) {
                Some(qv) => qv,
                None => {
                    return None;
                },
            }
        } else {
            1000
        };
        proof {
            reveal_strlit("/");
        }
        let media_parts = split(parts[0].as_str(), "/");
        if media_parts.len() < 2 {
            return None;
        }
        proof {
            assert(media_parts.deep_view()[0] == media_parts@[0]@);
            assert(media_parts.deep_view()[1] == media_parts@[1]@);
        }
        proof {
            reveal_strlit("+");
        }
        let mime_parts = split(media_parts[1].as_str(), "+");
        proof {
            assert(mime_parts.deep_view()[0] == mime_parts@[0]@);
        }
        let suffix = if mime_parts.len() > 1 {
            proof {
                assert(mime_parts.deep_view()[1] == mime_parts@[1]@);
            }
            match MimeSuffix::parse(mime_parts[1].as_str()) {
                Some(sx) => sx,
                None => {
                    return None;
                },
            }
        } else {
            MimeSuffix::NoSuffix
        };
        let media = match MediaType::parse(media_parts[0].as_str()) {
            Some(m) => m,
            None => {
                return None;
            },
        };
        let mime = match MimeType::parse(mime_parts[0].as_str()) {
            Some(m) => m,
            None => {
                return None;
            },
        };
        ContentType(media, mime, suffix, q).validate()
    }

    /// Parse a comma-separated `Accept` value, keeping the tokens that parse
    /// and dropping the rest; fails only when no token parsed at all.
    pub fn parse_many(content_types: String) -> (r: Option<Vec<Self>>)
        ensures
            match r {
                Some(v) => v@ == spec_parse_many(content_types@) && v@.len() > 0,
                None => spec_parse_many(content_types@).len() == 0,
            },
    {
        proof {
            reveal_strlit(",");
        }
        let parts = split(content_types.as_str(), ",");
        let mut out: Vec<ContentType> = Vec::new();
        let ghost dv = parts.deep_view();
        proof {
            assert(dv.skip(0) =~= dv);
            assert(out@ + spec_cts(dv) =~= spec_cts(dv));
        }
        let n = parts.len();
        for i in 0..n
            invariant
                n == parts.len(),
                dv == parts.deep_view(),
                spec_cts(dv) == out@ + spec_cts(dv.skip(i as int)),
        {
            proof {
                assert(parts.deep_view()[i as int] == parts@[i as int]@);
                assert(dv.skip(i as int)[0] == dv[i as int]);
                assert(dv.skip(i as int).skip(1) =~= dv.skip(i + 1));
            }
            match Self::parse(parts[i].clone()) {
                Some(ct) => {
                    out.push(ct);
                    proof {
                        assert(out@.drop_last() + (seq![ct] + spec_cts(dv.skip(i + 1))) =~= out@
                            + spec_cts(dv.skip(i + 1)));
                    }
                },
                None => {},
            }
        }
        proof {
            assert(dv.skip(n as int) =~= Seq::<Seq<char>>::empty());
            assert(out@ + Seq::<ContentType>::empty() =~= out@);
        }
        if out.len() == 0 {
            None
        } else {
            Some(out)
        }
    }
}

/// Law: a token that `parse` accepts yields a content type whose fields are
/// exactly the token's components, and that content type satisfies the
/// media/mime consistency invariant, so validating it again returns it
/// unchanged.
pub proof fn lemma_parse_revalidate(s: Seq<char>, ct: ContentType)
    requires
        spec_content_type(s) == Some(ct),
    ensures
        spec_consistent(ct),
        spec_validate(ct) == Some(ct),
        spec_media_type(spec_split(spec_split(s, ";q="@)[0], "/"@)[0]) == Some(ct.0),
        spec_mime_type(
            spec_split(spec_split(spec_split(s, ";q="@)[0], "/"@)[1], "+"@)[0],
        ) == Some(ct.1),
        ct.2 == ({
            let mime_parts = spec_split(spec_split(spec_split(s, ";q="@)[0], "/"@)[1], "+"@);
            if mime_parts.len() > 1 {
                spec_mime_suffix(mime_parts[1])
            } else {
                MimeSuffix::NoSuffix
            }
        }),
        Some(ct.3) == ({
            let parts = spec_split(s, ";q="@);
            if parts.len() > 1 {
                spec_quality(parts[1])
            } else {
                Some(1000u32)
            }
        }),
{
}

/// Law: a token whose media and mime components parse to a mismatched pair
/// (a media other than `All` that is not the mime type's associated media)
/// never yields a content type.
pub proof fn lemma_mismatch_rejected(s: Seq<char>, media: MediaType, mime: MimeType)
    requires
        spec_split(spec_split(s, ";q="@)[0], "/"@).len() >= 2,
        spec_media_type(spec_split(spec_split(s, ";q="@)[0], "/"@)[0]) == Some(media),
        spec_mime_type(
            spec_split(spec_split(spec_split(s, ";q="@)[0], "/"@)[1], "+"@)[0],
        ) == Some(mime),
        media != MediaType::All,
        media != spec_associated_media(mime),
    ensures
        spec_content_type(s) is None,
{
}

} // verus!
