//! Messages of the converter: why a profile was rejected, and why it
//! cannot be converted to a format.

use vstd::prelude::*;
use crate::bytes::{lossy_text, string_from_utf8_lossy};
use crate::native::{FILE_MAGIC, HeaderField, ParseError, Profile};
use crate::state::{tier_name, tier_name_spec};
use crate::text::{dec_text, hex16_upper_text, push_dec, push_hex16_upper, push_str, utf8};

verus! {

/// The name of a header field in messages.
pub open spec fn field_name(f: HeaderField) -> Seq<char> {
    match f {
        HeaderField::Magic => "magic"@,
        HeaderField::Version => "version"@,
        HeaderField::Tier => "tier"@,
        HeaderField::PointerSize => "ptr_size"@,
        HeaderField::Flags => "flags"@,
        HeaderField::LoadAddr => "load_addr"@,
        HeaderField::TextStart => "text_start"@,
        HeaderField::TextEnd => "text_end"@,
        HeaderField::Entry => "entry"@,
        HeaderField::BuildId => "build_id"@,
    }
}

/// The bytes of the message of a parse error.
pub open spec fn parse_error_text(e: ParseError) -> Seq<u8> {
    match e {
        ParseError::TruncatedHeader(f) => utf8("truncated header: "@) + utf8(field_name(f)),
        ParseError::BadMagic(m) => utf8("bad magic: expected 0x"@) + hex16_upper_text(FILE_MAGIC)
            + utf8(", got 0x"@) + hex16_upper_text(m),
        ParseError::UnsupportedVersion(v) => utf8("unsupported format version: "@) + dec_text(
            v as nat,
        ) + utf8(" (expected 1)"@),
        ParseError::InvalidPointerSize(p) => utf8("invalid pointer_size: "@) + dec_text(p as nat)
            + utf8(" (expected 4 or 8)"@),
    }
}

fn field_str(f: HeaderField) -> (s: &'static str)
    ensures
        s@ == field_name(f),
{
    match f {
        HeaderField::Magic => "magic",
        HeaderField::Version => "version",
        HeaderField::Tier => "tier",
        HeaderField::PointerSize => "ptr_size",
        HeaderField::Flags => "flags",
        HeaderField::LoadAddr => "load_addr",
        HeaderField::TextStart => "text_start",
        HeaderField::TextEnd => "text_end",
        HeaderField::Entry => "entry",
        HeaderField::BuildId => "build_id",
    }
}

impl ParseError {
    /// The message of the error, as the converter prints it.
    pub fn message(&self) -> (m: String)
        ensures
            m@ == lossy_text(parse_error_text(*self)),
    {
        let mut out: Vec<u8> = Vec::new();
        match *self {
            ParseError::TruncatedHeader(f) => {
                push_str(&mut out, "truncated header: ");
                push_str(&mut out, field_str(f));
            },
            ParseError::BadMagic(m) => {
                push_str(&mut out, "bad magic: expected 0x");
                push_hex16_upper(&mut out, FILE_MAGIC);
                push_str(&mut out, ", got 0x");
                push_hex16_upper(&mut out, m);
            },
            ParseError::UnsupportedVersion(v) => {
                push_str(&mut out, "unsupported format version: ");
                push_dec(&mut out, v as u64);
                push_str(&mut out, " (expected 1)");
            },
            ParseError::InvalidPointerSize(p) => {
                push_str(&mut out, "invalid pointer_size: ");
                push_dec(&mut out, p as u64);
                push_str(&mut out, " (expected 4 or 8)");
            },
        }
        assert(out@ =~= parse_error_text(*self));
        string_from_utf8_lossy(out.as_slice())
    }
}

/// The bytes of the message for a profile of tier `tier` that a
/// `format` conversion needing tier `min_tier` rejects.
pub open spec fn require_tier_text(format: Seq<char>, min_tier: u8, tier: u8) -> Seq<u8> {
    utf8(format) + utf8(" conversion requires at least tier "@) + dec_text(min_tier as nat) + utf8(
        " ("@,
    ) + utf8(tier_name_spec(min_tier)) + utf8(") but profile was collected at tier "@) + dec_text(
        tier as nat,
    ) + utf8(" ("@) + utf8(tier_name_spec(tier)) + utf8("). Re-run the plugin with tier="@) + utf8(
        tier_name_spec(min_tier),
    ) + utf8("."@)
}

/// Checks that a profile was collected at `min_tier` or above, as a
/// `format_name` conversion needs; otherwise an error that names both
/// tiers and the plugin argument to use.
pub fn require_tier(profile: &Profile, min_tier: u8, format_name: &str) -> (r: Result<(), String>)
    ensures
        r is Ok <==> profile.header.tier >= min_tier,
        r matches Err(m) ==> m@ == lossy_text(
            require_tier_text(format_name@, min_tier, profile.header.tier),
        ),
{
    let tier = profile.header.tier;
    if tier >= min_tier {
        return Ok(());
    }
    let mut out: Vec<u8> = Vec::new();
    push_str(&mut out, format_name);
    push_str(&mut out, " conversion requires at least tier ");
    push_dec(&mut out, min_tier as u64);
    push_str(&mut out, " (");
    push_str(&mut out, tier_name(min_tier));
    push_str(&mut out, ") but profile was collected at tier ");
    push_dec(&mut out, tier as u64);
    push_str(&mut out, " (");
    push_str(&mut out, tier_name(tier));
    push_str(&mut out, "). Re-run the plugin with tier=");
    push_str(&mut out, tier_name(min_tier));
    push_str(&mut out, ".");
    assert(out@ =~= require_tier_text(format_name@, min_tier, tier));
    Err(string_from_utf8_lossy(out.as_slice()))
}

} // verus!
