//! The text by which each error describes itself.
use vstd::prelude::*;

use crate::error::{FormatError, HddmError, IoFailure};
use crate::header::AttributeDef;

verus! {

/// The digit of value `d` (below sixteen), in lower case.
pub open spec fn digit_char(d: nat) -> char {
    "0123456789abcdef"@[d as int]
}

/// The digits of `n` in base `base`, most significant first, without
/// leading zeros.
pub open spec fn digits(n: nat, base: nat) -> Seq<char>
    decreases n,
{
    if base < 2 || n < base {
        seq![digit_char(n)]
    } else {
        proof {
            vstd::arithmetic::div_mod::lemma_div_decreases(n as int, base as int);
        }
        digits(n / base, base).push(digit_char(n % base))
    }
}

/// `x` in decimal, with a minus sign where it is negative.
pub open spec fn decimal(x: int) -> Seq<char> {
    if x < 0 {
        "-"@ + digits((-x) as nat, 10)
    } else {
        digits(x as nat, 10)
    }
}

/// `x` in hexadecimal after `0x`, as its 32 bits read unsigned.
pub open spec fn hex(x: i32) -> Seq<char> {
    "0x"@ + digits(x as u32 as nat, 16)
}

/// `s` between double quotes.
pub open spec fn quoted(s: Seq<char>) -> Seq<char> {
    "\""@ + s + "\""@
}

/// An optional text as `Some("..")` or `None`.
pub open spec fn optional_text(o: Option<String>) -> Seq<char> {
    match o {
        Some(s) => "Some("@ + quoted(s@) + ")"@,
        None => "None"@,
    }
}

/// One attribute as `AttributeDef { name: "..", ty: ".." }`.
pub open spec fn attribute_text(a: AttributeDef) -> Seq<char> {
    "AttributeDef { name: "@ + quoted(a.name@) + ", ty: "@ + quoted(a.ty@) + " }"@
}

/// The attributes, each as `attribute_text` has it, separated by `, `.
pub open spec fn attribute_items(a: Seq<AttributeDef>) -> Seq<char>
    decreases a.len(),
{
    if a.len() == 0 {
        Seq::empty()
    } else if a.len() == 1 {
        attribute_text(a[0])
    } else {
        attribute_items(a.drop_last()) + ", "@ + attribute_text(a.last())
    }
}

/// An attribute list between square brackets.
pub open spec fn attribute_list_text(a: Seq<AttributeDef>) -> Seq<char> {
    "["@ + attribute_items(a) + "]"@
}

/// The text of an input/output failure.
pub open spec fn io_text(k: IoFailure) -> Seq<char> {
    match k {
        IoFailure::UnexpectedEof => "failed to fill whole buffer"@,
        IoFailure::InvalidData => "stream did not contain valid UTF-8"@,
        IoFailure::CompressionFailed => "compression failed"@,
        IoFailure::DecompressionFailed => "corrupt compressed block"@,
    }
}

/// The text of a format violation.
pub open spec fn format_text(f: FormatError) -> Seq<char> {
    match f {
        FormatError::NegativeElementSize(n) => "negative HDDM element size: "@ + decimal(n as int),
        FormatError::ElementSizeMismatch => "HDDM element size mismatch: unread bytes remain"@,
        FormatError::NegativeListCount(n) => "negative HDDM list count: "@ + decimal(n as int),
        FormatError::PayloadNotEmpty => "HDDM payload has unread bytes"@,
        FormatError::InvalidStatusTokenSize(n) => "invalid HDDM status token size: "@ + decimal(
            n as int,
        ),
        FormatError::UnsupportedStatusTokenFormat(n) => "unsupported HDDM status token format: "@
            + decimal(n as int),
        FormatError::UnsupportedCompressionBits(n) => "unsupported HDDM compression bits: "@ + hex(
            n,
        ),
        FormatError::NegativeZlibBlockSize(n) => "negative zlib block size: "@ + decimal(n as int),
        FormatError::NegativeBzip2BlockSize(n) => "negative bzip2 block size: "@ + decimal(
            n as int,
        ),
        FormatError::NegativeRecordSize(n) => "negative HDDM record size: "@ + decimal(n as int),
        FormatError::Bzip2NotImplemented => "bzip2 HDDM compression is not implemented"@,
        FormatError::HeaderEof => "reached EOF before complete HDDM header"@,
        FormatError::EmptyElementOutsideRoot => "unexpected empty element outside root"@,
        FormatError::UnexpectedClosingTag(s) => "unexpected closing tag </"@ + s@ + ">"@,
        FormatError::MismatchedClosingTag { expected, found } => "mismatched closing tag: expected </"@
            + expected@ + ">, got </"@ + found@ + ">"@,
        FormatError::ClassMismatch { file_class, expected_class } => "HDDM class mismatch: file has "@
            + optional_text(file_class) + ", generated expects "@ + optional_text(expected_class),
        FormatError::ElementMismatch { file, expected } => "HDDM element mismatch: file has "@
            + file@ + ", generated expects "@ + expected@,
        FormatError::AttributeMismatch { element } => "HDDM attribute mismatch in element `"@
            + element@ + "`"@,
        FormatError::AttributeListMismatch { element, file_attributes, expected_attributes } =>
            "HDDM attribute mismatch in element `"@ + element@ + "`: file has "@
            + attribute_list_text(file_attributes@) + ", generated code expects "@
            + attribute_list_text(expected_attributes@),
        FormatError::MissingRequiredChild { child, parent } => "HDDM file is missing required child `"@
            + child@ + "` of `"@ + parent@ + "`"@,
        FormatError::MalformedAttribute(m) => m@,
        FormatError::HeaderNotUtf8(m) => m@,
        FormatError::UnexpectedChildIndex(i) => "unexpected HDDM child index "@ + decimal(i as int),
        FormatError::MissingRequiredLink(name) => "missing required HDDM child `"@ + name@ + "`"@,
    }
}

/// The text of an error.
pub open spec fn error_text(e: HddmError) -> Seq<char> {
    match e {
        HddmError::IoError(k) => io_text(k),
        HddmError::XmlError(m) => m@,
        HddmError::Utf8Error(m) => m@,
        HddmError::FormatError(f) => "invalid HDDM format: "@ + format_text(f),
    }
}

/// Appends the digits of `n` in base `base`.
fn push_digits(s: &mut String, n: u64, base: u64)
    requires
        base == 10 || base == 16,
    ensures
        final(s)@ == old(s)@ + digits(n as nat, base as nat),
    decreases n,
{
    if n >= base {
        push_digits(s, n / base, base);
    }
    let d = (n % base) as usize;
    let table = "0123456789abcdef";
    proof {
        reveal_strlit("0123456789abcdef");
    }
    let ghost before = s@;
    s.append(table.substring_char(d, d + 1));
    proof {
        assert(table@.subrange(d as int, d + 1) =~= seq![digit_char(d as nat)]);
        if n >= base {
            assert(s@ =~= old(s)@ + digits(n as nat, base as nat));
        } else {
            assert(s@ =~= old(s)@ + digits(n as nat, base as nat));
        }
    }
}

/// Appends `x` in decimal.
fn push_decimal(s: &mut String, x: i64)
    ensures
        final(s)@ == old(s)@ + decimal(x as int),
{
    if x < 0 {
        s.append("-");
        let m: u64 = if x == i64::MIN {
            0x8000_0000_0000_0000u64
        } else {
            (-x) as u64
        };
        push_digits(s, m, 10);
    } else {
        push_digits(s, x as u64, 10);
    }
}

/// Appends `s` between double quotes.
fn push_quoted(out: &mut String, s: &String)
    ensures
        final(out)@ == old(out)@ + quoted(s@),
{
    out.append("\"");
    out.append(s.as_str());
    out.append("\"");
}

/// Appends an optional text as `Some("..")` or `None`.
fn push_optional(out: &mut String, o: &Option<String>)
    ensures
        final(out)@ == old(out)@ + optional_text(*o),
{
    match o {
        Some(s) => {
            out.append("Some(");
            push_quoted(out, s);
            out.append(")");
        },
        None => {
            out.append("None");
        },
    }
}

/// Appends an attribute list between square brackets.
fn push_attribute_list(out: &mut String, a: &Vec<AttributeDef>)
    ensures
        final(out)@ == old(out)@ + attribute_list_text(a@),
{
    out.append("[");
    let ghost start = out@;
    let mut i: usize = 0;
    while i < a.len()
        invariant
            i <= a.len(),
            out@ == start + attribute_items(a@.take(i as int)),
        decreases a.len() - i,
    {
        if i > 0 {
            out.append(", ");
        }
        out.append("AttributeDef { name: ");
        push_quoted(out, &a[i].name);
        out.append(", ty: ");
        push_quoted(out, &a[i].ty);
        out.append(" }");
        proof {
            assert(a@.take(i + 1).drop_last() =~= a@.take(i as int));
            if i == 0 {
                assert(a@.take(1)[0] == a@[0]);
            }
        }
        i = i + 1;
    }
    proof {
        assert(a@.take(a@.len() as int) =~= a@);
    }
    out.append("]");
}

impl HddmError {
    /// The text that describes this error.
    pub fn message(&self) -> (s: String)
        ensures
            s@ == error_text(*self),
    {
        let mut s = String::new();
        match self {
            HddmError::IoError(k) => {
                match k {
                    IoFailure::UnexpectedEof => s.append("failed to fill whole buffer"),
                    IoFailure::InvalidData => s.append("stream did not contain valid UTF-8"),
                    IoFailure::CompressionFailed => s.append("compression failed"),
                    IoFailure::DecompressionFailed => s.append("corrupt compressed block"),
                }
            },
            HddmError::XmlError(m) => s.append(m.as_str()),
            HddmError::Utf8Error(m) => s.append(m.as_str()),
            HddmError::FormatError(f) => {
                s.append("invalid HDDM format: ");
                push_format_text(&mut s, f);
            },
        }
        s
    }
}

/// Appends the text of a format violation.
fn push_format_text(s: &mut String, f: &FormatError)
    ensures
        final(s)@ == old(s)@ + format_text(*f),
{
    match f {
        FormatError::NegativeElementSize(n) => {
            s.append("negative HDDM element size: ");
            push_decimal(s, *n as i64);
        },
        FormatError::ElementSizeMismatch => {
            s.append("HDDM element size mismatch: unread bytes remain");
        },
        FormatError::NegativeListCount(n) => {
            s.append("negative HDDM list count: ");
            push_decimal(s, *n as i64);
        },
        FormatError::PayloadNotEmpty => {
            s.append("HDDM payload has unread bytes");
        },
        FormatError::InvalidStatusTokenSize(n) => {
            s.append("invalid HDDM status token size: ");
            push_decimal(s, *n as i64);
        },
        FormatError::UnsupportedStatusTokenFormat(n) => {
            s.append("unsupported HDDM status token format: ");
            push_decimal(s, *n as i64);
        },
        FormatError::UnsupportedCompressionBits(n) => {
            s.append("unsupported HDDM compression bits: ");
            s.append("0x");
            push_digits(s, (*n as u32) as u64, 16);
        },
        FormatError::NegativeZlibBlockSize(n) => {
            s.append("negative zlib block size: ");
            push_decimal(s, *n as i64);
        },
        FormatError::NegativeBzip2BlockSize(n) => {
            s.append("negative bzip2 block size: ");
            push_decimal(s, *n as i64);
        },
        FormatError::NegativeRecordSize(n) => {
            s.append("negative HDDM record size: ");
            push_decimal(s, *n as i64);
        },
        FormatError::Bzip2NotImplemented => {
            s.append("bzip2 HDDM compression is not implemented");
        },
        FormatError::HeaderEof => {
            s.append("reached EOF before complete HDDM header");
        },
        FormatError::EmptyElementOutsideRoot => {
            s.append("unexpected empty element outside root");
        },
        FormatError::UnexpectedClosingTag(t) => {
            s.append("unexpected closing tag </");
            s.append(t.as_str());
            s.append(">");
        },
        FormatError::MismatchedClosingTag { expected, found } => {
            s.append("mismatched closing tag: expected </");
            s.append(expected.as_str());
            s.append(">, got </");
            s.append(found.as_str());
            s.append(">");
        },
        FormatError::ClassMismatch { file_class, expected_class } => {
            s.append("HDDM class mismatch: file has ");
            push_optional(s, file_class);
            s.append(", generated expects ");
            push_optional(s, expected_class);
        },
        FormatError::ElementMismatch { file, expected } => {
            s.append("HDDM element mismatch: file has ");
            s.append(file.as_str());
            s.append(", generated expects ");
            s.append(expected.as_str());
        },
        FormatError::AttributeMismatch { element } => {
            s.append("HDDM attribute mismatch in element `");
            s.append(element.as_str());
            s.append("`");
        },
        FormatError::AttributeListMismatch { element, file_attributes, expected_attributes } => {
            s.append("HDDM attribute mismatch in element `");
            s.append(element.as_str());
            s.append("`: file has ");
            push_attribute_list(s, file_attributes);
            s.append(", generated code expects ");
            push_attribute_list(s, expected_attributes);
        },
        FormatError::MissingRequiredChild { child, parent } => {
            s.append("HDDM file is missing required child `");
            s.append(child.as_str());
            s.append("` of `");
            s.append(parent.as_str());
            s.append("`");
        },
        FormatError::MalformedAttribute(m) => {
            s.append(m.as_str());
        },
        FormatError::HeaderNotUtf8(m) => {
            s.append(m.as_str());
        },
        FormatError::UnexpectedChildIndex(i) => {
            s.append("unexpected HDDM child index ");
            push_digits(s, *i as u64, 10);
        },
        FormatError::MissingRequiredLink(name) => {
            s.append("missing required HDDM child `");
            s.append(name.as_str());
            s.append("`");
        },
    }
}

} // verus!
