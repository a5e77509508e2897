//! Helpers for a command-line front end: output names and sizes for a reader.

use vstd::prelude::*;

verus! {

/// The extension of a path, as `Path::extension` gives it.
pub uninterp spec fn path_extension(path: Seq<char>) -> Option<Seq<char>>;

/// A path with another extension, as `Path::with_extension` gives it.
pub uninterp spec fn path_with_extension(path: Seq<char>, extension: Seq<char>) -> Seq<char>;

/// `Path::extension`: the extension of the path `path`, which depends on the
/// text of the path alone.
#[verifier::external_body]
pub(crate) fn extension_of(path: &str) -> (extension: Option<String>)
    ensures
        match path_extension(path@) {
            Some(e) => extension is Some && extension->Some_0@ == e,
            None => extension is None,
        },
{
    std::path::Path::new(path).extension().and_then(|e| e.to_str()).map(|e| e.to_string())
}

/// `Path::with_extension`: the path `path` with the extension `extension`,
/// which depends on the two texts alone. The extension must hold no path
/// separator, on which the outside function panics.
#[verifier::external_body]
pub(crate) fn with_extension(path: &str, extension: &str) -> (renamed: String)
    requires
        forall|i: int| 0 <= i < extension@.len() ==> extension@[i] != '/' && extension@[i] != '\\',
    ensures
        renamed@ == path_with_extension(path@, extension@),
{
    std::path::Path::new(path).with_extension(extension).to_string_lossy().into_owned()
}

/// `String::from_utf8` on bytes under 128: the text with one character for
/// each byte, of the same value.
#[verifier::external_body]
pub(crate) fn ascii_text(bytes: Vec<u8>) -> (text: String)
    requires
        forall|i: int| 0 <= i < bytes@.len() ==> bytes@[i] < 128,
    ensures
        text@.len() == bytes@.len(),
        forall|i: int| 0 <= i < bytes@.len() ==> text@[i] as u32 == bytes@[i] as u32,
{
    String::from_utf8(bytes).unwrap_or_default()
}

/// Whether a path with the extension `extension` needs the extension `hlc`.
pub fn needs_hlc_extension(extension: Option<&str>) -> (needed: bool)
    ensures
        needed == !(extension matches Some(e) && e@ == "hlc"@),
{
    match extension {
        Some(e) => !(e.to_string() == "hlc".to_string()),
        None => true,
    }
}

/// The path `path` with the extension `hlc`: `path` itself if it has this
/// extension, else `path` with its extension replaced or added.
pub fn ensure_hlc_extension(path: String) -> (renamed: String)
    ensures
        renamed@ == if path_extension(path@) == Some("hlc"@) {
            path@
        } else {
            path_with_extension(path@, "hlc"@)
        },
{
    let extension = extension_of(path.as_str());
    let needed = match &extension {
        Some(e) => needs_hlc_extension(Some(e.as_str())),
        None => needs_hlc_extension(None),
    };
    if needed {
        proof {
            reveal_strlit("hlc");
        }
        with_extension(path.as_str(), "hlc")
    } else {
        path
    }
}

/// The decimal digits of `n` in ASCII.
pub open spec fn digits(n: nat) -> Seq<u8>
    decreases n,
{
    if n < 10 {
        seq![(48 + n) as u8]
    } else {
        digits(n / 10).push((48 + n % 10) as u8)
    }
}

/// The unit of a size: 0 for bytes, and 1 to 4 for KB to TB, the largest unit
/// of which the size has one at least.
pub open spec fn unit_of(bytes: u64) -> int {
    if bytes < 1024 {
        0
    } else if bytes < 1048576 {
        1
    } else if bytes < 1073741824 {
        2
    } else if bytes < 1099511627776 {
        3
    } else {
        4
    }
}

/// The number of bytes of a unit.
pub open spec fn unit_size(unit: int) -> int {
    if unit <= 0 {
        1
    } else if unit == 1 {
        1024
    } else if unit == 2 {
        1048576
    } else if unit == 3 {
        1073741824
    } else {
        1099511627776
    }
}

/// The name of a unit in ASCII.
pub open spec fn unit_name(unit: int) -> Seq<u8> {
    if unit <= 0 {
        seq![0x42u8]
    } else if unit == 1 {
        seq![0x4Bu8, 0x42u8]
    } else if unit == 2 {
        seq![0x4Du8, 0x42u8]
    } else if unit == 3 {
        seq![0x47u8, 0x42u8]
    } else {
        seq![0x54u8, 0x42u8]
    }
}

/// `numerator / denominator` rounded to the nearest whole number, halves to
/// the even one.
pub open spec fn rounded(numerator: int, denominator: int) -> int {
    let quotient = numerator / denominator;
    let rest = numerator % denominator;
    if 2 * rest > denominator || (2 * rest == denominator && quotient % 2 == 1) {
        quotient + 1
    } else {
        quotient
    }
}

/// The text of a size in ASCII: the number of bytes and ` B` under 1024
/// bytes, else the size in its unit with two decimals, a space and the unit.
pub open spec fn size_text(bytes: u64) -> Seq<u8> {
    let unit = unit_of(bytes);
    if unit == 0 {
        digits(bytes as nat) + seq![0x20u8] + unit_name(0)
    } else {
        let hundredths = rounded(bytes * 100, unit_size(unit));
        digits((hundredths / 100) as nat) + seq![0x2Eu8, (48 + (hundredths / 10) % 10) as u8, (48 + hundredths
            % 10) as u8, 0x20u8] + unit_name(unit)
    }
}

/// Appends the decimal digits of `n` to `out`.
fn push_digits(out: &mut Vec<u8>, n: u64)
    requires
        forall|i: int| 0 <= i < old(out)@.len() ==> old(out)@[i] < 128,
    ensures
        final(out)@ == old(out)@ + digits(n as nat),
        forall|i: int| 0 <= i < final(out)@.len() ==> final(out)@[i] < 128,
    decreases n,
{
    if n >= 10 {
        push_digits(out, n / 10);
    }
    let digit: u8 = 48 + (n % 10) as u8;
    out.push(digit);
    proof {
        if n >= 10 {
            assert(out@ =~= old(out)@ + digits((n / 10) as nat).push(digit));
        } else {
            assert(out@ =~= old(out)@ + seq![digit]);
        }
    }
}

/// The size `bytes` for a reader, in the largest unit from B to TB of which it
/// has one at least: `512 B`, `1.50 KB`, `1.00 MB`.
pub fn format_size(bytes: u64) -> (text: String)
    ensures
        text@.len() == size_text(bytes).len(),
        forall|i: int| 0 <= i < text@.len() ==> text@[i] as u32 == size_text(bytes)[i] as u32,
{
    let mut out: Vec<u8> = Vec::new();
    let unit: u8 = if bytes < 1024 {
        0
    } else if bytes < 1048576 {
        1
    } else if bytes < 1073741824 {
        2
    } else if bytes < 1099511627776 {
        3
    } else {
        4
    };
    if unit == 0 {
        push_digits(&mut out, bytes);
        out.push(0x20);
        out.push(0x42);
        assert(out@ =~= size_text(bytes));
        return ascii_text(out);
    }
    let size: u128 = if unit == 1 {
        1024
    } else if unit == 2 {
        1048576
    } else if unit == 3 {
        1073741824
    } else {
        1099511627776
    };
    let numerator: u128 = (bytes as u128) * 100;
    let quotient: u128 = numerator / size;
    let rest: u128 = numerator % size;
    let hundredths: u128 = if 2 * rest > size || (2 * rest == size && quotient % 2 == 1) {
        quotient + 1
    } else {
        quotient
    };
    assert(hundredths == rounded(bytes * 100, unit_size(unit as int)));
    assert(hundredths / 100 <= u64::MAX);
    push_digits(&mut out, (hundredths / 100) as u64);
    let ghost whole = out@;
    out.push(0x2E);
    out.push(48 + ((hundredths / 10) % 10) as u8);
    out.push(48 + (hundredths % 10) as u8);
    out.push(0x20);
    out.push(if unit == 1 {
        0x4B
    } else if unit == 2 {
        0x4D
    } else if unit == 3 {
        0x47
    } else {
        0x54
    });
    out.push(0x42);
    assert(out@ =~= size_text(bytes));
    ascii_text(out)
}

} // verus!
