//! Formatting of one result line, in the style of `ls -la`: a kind
//! character, the permission bits, the size right-aligned, the
//! modification time, and the path.

use vstd::prelude::*;

use crate::metadata_cache::Metadata;

verus! {

/// Relies on `String::push`: appends the given char to the end of the
/// string.
#[verifier::external_body]
fn push_char(s: &mut String, c: char)
    ensures
        final(s)@ == old(s)@.push(c),
{
    s.push(c)
}

/// The decimal digit characters.
pub open spec fn digit_char(d: nat) -> char {
    if d == 0 {
        '0'
    } else if d == 1 {
        '1'
    } else if d == 2 {
        '2'
    } else if d == 3 {
        '3'
    } else if d == 4 {
        '4'
    } else if d == 5 {
        '5'
    } else if d == 6 {
        '6'
    } else if d == 7 {
        '7'
    } else if d == 8 {
        '8'
    } else {
        '9'
    }
}

/// The decimal notation of a number: its digits, most significant
/// first, with no leading zeros (zero itself is the single digit 0).
pub open spec fn spec_decimal(n: nat) -> Seq<char>
    decreases n,
{
    if n < 10 {
        seq![digit_char(n)]
    } else {
        spec_decimal(n / 10).push(digit_char(n % 10))
    }
}

fn digit_to_char(d: u64) -> (c: char)
    requires
        d < 10,
    ensures
        c == digit_char(d as nat),
{
    match d {
        0 => '0',
        1 => '1',
        2 => '2',
        3 => '3',
        4 => '4',
        5 => '5',
        6 => '6',
        7 => '7',
        8 => '8',
        _ => '9',
    }
}

/// Renders a number in decimal notation.
pub fn format_u64(n: u64) -> (s: String)
    ensures
        s@ == spec_decimal(n as nat),
    decreases n,
{
    if n < 10 {
        let mut s = String::new();
        push_char(&mut s, digit_to_char(n));
        s
    } else {
        let mut s = format_u64(n / 10);
        push_char(&mut s, digit_to_char(n % 10));
        s
    }
}

/// A run of spaces of the given length.
pub open spec fn spaces(n: nat) -> Seq<char>
    decreases n,
{
    if n == 0 {
        Seq::empty()
    } else {
        spaces((n - 1) as nat).push(' ')
    }
}

/// A string padded on the left with spaces up to the given width; a
/// string at least that wide is returned unchanged.
pub open spec fn spec_padded(s: Seq<char>, width: nat) -> Seq<char> {
    if s.len() >= width {
        s
    } else {
        spaces((width - s.len()) as nat) + s
    }
}

fn spaces_string(n: usize) -> (s: String)
    ensures
        s@ == spaces(n as nat),
    decreases n,
{
    if n == 0 {
        let s = String::new();
        proof {
            assert(s@ =~= spaces(0));
        }
        s
    } else {
        let mut s = spaces_string(n - 1);
        push_char(&mut s, ' ');
        s
    }
}

/// Pads a rendered value on the left with spaces up to `width`.
pub fn pad_left(s: String, width: usize) -> (r: String)
    ensures
        r@ == spec_padded(s@, width as nat),
{
    let len = s.as_str().unicode_len();
    if len >= width {
        s
    } else {
        let pad = spaces_string(width - len);
        let r = pad.concat(s.as_str());
        r
    }
}

/// The permission characters of one three-bit group: `r`, `w` and `x`
/// for the bits that are set, `-` for those that are not.
pub open spec fn spec_permission_bits(bits: u32) -> Seq<char> {
    seq![
        if bits & 0o4 != 0 {
            'r'
        } else {
            '-'
        },
        if bits & 0o2 != 0 {
            'w'
        } else {
            '-'
        },
        if bits & 0o1 != 0 {
            'x'
        } else {
            '-'
        },
    ]
}

/// Helper to format individual permission bits (e.g., `rwx`).
pub fn format_permission_bits(bits: u32) -> (s: String)
    ensures
        s@ == spec_permission_bits(bits),
{
    let mut s = String::new();
    push_char(&mut s, if bits & 0o4 != 0 { 'r' } else { '-' });
    push_char(&mut s, if bits & 0o2 != 0 { 'w' } else { '-' });
    push_char(&mut s, if bits & 0o1 != 0 { 'x' } else { '-' });
    proof {
        assert(s@ =~= spec_permission_bits(bits));
    }
    s
}

/// The permission string of a whole Unix mode: the user, group and
/// other groups of three, in that order (e.g. `rwxr-xr-x`).
pub open spec fn spec_permissions(mode: u32) -> Seq<char> {
    spec_permission_bits((mode >> 6) & 0o7) + spec_permission_bits((mode >> 3) & 0o7)
        + spec_permission_bits(mode & 0o7)
}

/// Format the file permissions as a string (e.g., `rwxr-xr-x`).
pub fn format_permissions(mode: u32) -> (s: String)
    ensures
        s@ == spec_permissions(mode),
{
    let mut s = format_permission_bits((mode >> 6) & 0o7);
    let group = format_permission_bits((mode >> 3) & 0o7);
    let other = format_permission_bits(mode & 0o7);
    s.append(group.as_str());
    s.append(other.as_str());
    s
}

/// What formatting a modification time comes to: the text that
/// chrono renders for this timestamp with the fixed format
/// `%Y-%m-%d %H:%M:%S`, a function of the timestamp alone.
pub uninterp spec fn datetime_display(secs: i64, nanos: u32) -> Seq<char>;

/// Relies on chrono's `DateTime::from_timestamp`, which builds a
/// date-time from a Unix timestamp and returns `None` only when the
/// timestamp is out of range, and on `NaiveDateTime::format`, which
/// renders it with the given format string; with the fixed format
/// used here the text depends on the timestamp alone. An
/// out-of-range timestamp falls back to rendering the epoch.
#[verifier::external_body]
pub fn format_system_time(secs: i64, nanos: u32) -> (r: String)
    ensures
        r@ == datetime_display(secs, nanos),
{
    let datetime = match chrono::DateTime::from_timestamp(secs, nanos) {
        Some(dt) => dt.naive_utc(),
        None => chrono::DateTime::UNIX_EPOCH.naive_utc(),
    };
    format!("{}", datetime.format("%Y-%m-%d %H:%M:%S"))
}

/// One whole result line: the kind character (`d` for a directory,
/// `-` for anything else), the permission bits, a space, the size
/// right-aligned to eight columns, a space, the modification time,
/// a space, and the path.
pub open spec fn spec_file_info(m: Metadata, path: Seq<char>) -> Seq<char> {
    seq![
        if m.kind is Directory {
            'd'
        } else {
            '-'
        },
    ] + spec_permissions(m.mode) + seq![' '] + spec_padded(spec_decimal(m.len as nat), 8) + seq![
        ' ',
    ] + datetime_display(m.modified_secs, m.modified_nanos) + seq![' '] + path
}

/// Format file information similar to `ls -la`.
pub fn format_file_info(path: &String, metadata: &Metadata) -> (r: String)
    ensures
        r@ == spec_file_info(*metadata, path@),
{
    let file_type = if metadata.is_dir() { 'd' } else { '-' };
    let perms_str = format_permissions(metadata.mode);
    let size_str = pad_left(format_u64(metadata.len), 8);
    let time_str = format_system_time(metadata.modified_secs, metadata.modified_nanos);

    let mut r = String::new();
    push_char(&mut r, file_type);
    r.append(perms_str.as_str());
    push_char(&mut r, ' ');
    r.append(size_str.as_str());
    push_char(&mut r, ' ');
    r.append(time_str.as_str());
    push_char(&mut r, ' ');
    r.append(path.as_str());
    proof {
        assert(r@ =~= spec_file_info(*metadata, path@));
    }
    r
}

} // verus!
