//! What the clipboard holds, as plain values: a saved copy of every format that can be put back,
//! and the text a `CF_UNICODETEXT` block carries.
//!
//! Capturing a selection works by making the focused application copy, which necessarily
//! overwrites the clipboard. Everything the user had there is saved first and put back
//! afterwards, so the capture is invisible to them. Opening, reading and writing the clipboard
//! happen beside the message loop; what the bytes mean is decided here.

use vstd::prelude::*;

use crate::ui::utf16;

verus! {

/// The clipboard format of UTF-16 text, which is little-endian on Windows.
pub const UNICODE_TEXT: u32 = 13;

/// Everything that was on the clipboard, in every format that can be restored.
pub struct Snapshot {
    pub formats: Vec<(u32, Vec<u8>)>,
}

/// Whether a format's clipboard handle is memory allocated by `GlobalAlloc`, and so can be
/// copied byte for byte. Bitmaps, metafiles and palettes are GDI objects, and the owner-display
/// formats are rendered by the owning window on demand.
pub open spec fn is_copyable(format: u32) -> bool {
    !(format == 2 || format == 3 || format == 9 || format == 14 || format == 0x80 || format == 0x82
        || format == 0x83 || format == 0x8E)
}

/// Whether a format can be saved into a snapshot and put back later.
pub fn can_be_copied(format: u32) -> (copyable: bool)
    ensures
        copyable == is_copyable(format),
{
    // CF_BITMAP, CF_METAFILEPICT, CF_PALETTE, CF_ENHMETAFILE, CF_OWNERDISPLAY, CF_DSPBITMAP,
    // CF_DSPMETAFILEPICT and CF_DSPENHMETAFILE.
    let not_global: [u32; 8] = [2, 3, 9, 14, 0x80, 0x82, 0x83, 0x8E];
    let mut i: usize = 0;
    while i < 8
        invariant
            i <= 8,
            not_global@ == seq![2u32, 3, 9, 14, 0x80, 0x82, 0x83, 0x8E],
            forall|j: int| 0 <= j < i ==> not_global@[j] != format,
        decreases 8 - i,
    {
        if not_global[i] == format {
            return false;
        }
        i += 1;
    }
    true
}

/// The UTF-16 units of a text block: each pair of bytes read little-endian, up to the first
/// zero unit. A final odd byte belongs to no unit.
pub open spec fn units_of(bytes: Seq<u8>) -> Seq<u16>
    decreases bytes.len(),
{
    if bytes.len() < 2 {
        Seq::empty()
    } else {
        let unit = (bytes[0] + 256 * bytes[1]) as u16;
        if unit == 0 {
            Seq::empty()
        } else {
            seq![unit] + units_of(bytes.skip(2))
        }
    }
}

/// The bytes of UTF-16 units, each written little-endian.
pub open spec fn bytes_of(units: Seq<u16>) -> Seq<u8>
    decreases units.len(),
{
    if units.len() == 0 {
        Seq::empty()
    } else {
        seq![(units[0] % 256) as u8, (units[0] / 256) as u8] + bytes_of(units.drop_first())
    }
}

/// What decoding UTF-16 gives when every error is replaced by U+FFFD, as `char::decode_utf16`
/// reads units: one outside the surrogates is the character with that code, a high surrogate
/// followed by a low one is the character the pair encodes, and any other surrogate is unpaired
/// and stands for U+FFFD on its own.
pub open spec fn decoded_utf16(units: Seq<u16>) -> Seq<char>
    decreases units.len(),
{
    if units.len() == 0 {
        Seq::empty()
    } else if units[0] < 0xD800 || units[0] > 0xDFFF {
        seq![units[0] as char] + decoded_utf16(units.drop_first())
    } else if units[0] <= 0xDBFF && units.len() >= 2 && 0xDC00 <= units[1] <= 0xDFFF {
        seq![((units[0] - 0xD800) * 1024 + (units[1] - 0xDC00) + 0x10000) as char] + decoded_utf16(
            units.skip(2),
        )
    } else {
        seq!['\u{FFFD}'] + decoded_utf16(units.drop_first())
    }
}

/// Calls `String::from_utf16_lossy`, which its documentation describes as decoding UTF-16 and
/// putting U+FFFD in place of invalid data; it is `char::decode_utf16` with each unpaired
/// surrogate replaced, which is what the contract states.
#[verifier::external_body]
fn from_utf16_lossy(units: &[u16]) -> (text: String)
    ensures
        text@ == decoded_utf16(units@),
{
    String::from_utf16_lossy(units)
}

/// The UTF-16 of a text decodes to the same text.
pub proof fn lemma_utf16_decodes_back(text: Seq<char>)
    ensures
        decoded_utf16(utf16(text)) == text,
    decreases text.len(),
{
    if text.len() > 0 {
        let c = text[0];
        let rest = text.drop_first();
        lemma_utf16_decodes_back(rest);
        let n = c as u32;
        vstd::utf8::char_is_scalar(c);
        vstd::utf8::char_u32_cast(c, n);
        let first = crate::ui::utf16_of(c);
        let all = first + utf16(rest);
        assert(utf16(text) == all);
        if n < 0x10000 {
            let u = first[0];
            assert(u == n as u16);
            assert(n < 0x10000 ==> (n as u16) as u32 == n) by (bit_vector);
            assert(u as u32 == n);
            assert(all[0] == u);
            assert(all.drop_first() == utf16(rest));
            assert((u as char) == c);
        } else {
            let high: int = 0xD800 + (n - 0x10000) / 1024;
            let low: int = 0xDC00 + (n - 0x10000) % 1024;
            assert(0xD800 <= high <= 0xDBFF);
            assert(0xDC00 <= low <= 0xDFFF);
            assert(first[0] == high as u16 && first[1] == low as u16);
            assert(all[0] == first[0] && all[1] == first[1]);
            assert(all.skip(2) == utf16(rest));
            assert((high - 0xD800) * 1024 + (low - 0xDC00) + 0x10000 == n);
        }
        assert(seq![c] + rest == text);
    }
}

/// The units a text block holds, up to its terminating zero.
fn text_units(bytes: &[u8]) -> (units: Vec<u16>)
    ensures
        units@ == units_of(bytes@),
{
    let mut units: Vec<u16> = Vec::new();
    let mut i: usize = 0;
    assert(bytes@.skip(0) == bytes@);
    while bytes.len() - i >= 2
        invariant
            i <= bytes@.len(),
            units_of(bytes@) == units@ + units_of(bytes@.skip(i as int)),
        decreases bytes.len() - i,
    {
        let ghost rest = bytes@.skip(i as int);
        let unit = (bytes[i] as u16) + 256 * (bytes[i + 1] as u16);
        assert(rest[0] == bytes[i as int] && rest[1] == bytes[i + 1]);
        if unit == 0 {
            assert(units@ + Seq::<u16>::empty() == units@);
            return units;
        }
        assert(rest.skip(2) == bytes@.skip(i + 2));
        assert(units@.push(unit) + units_of(rest.skip(2)) == units@ + (seq![unit] + units_of(rest.skip(2))));
        units.push(unit);
        i += 2;
    }
    assert(bytes@.skip(i as int).len() < 2);
    assert(units@ + Seq::<u16>::empty() == units@);
    units
}

/// The text a `CF_UNICODETEXT` block carries: its units up to the terminating zero, decoded.
pub fn read_text(bytes: &[u8]) -> (text: String)
    ensures
        text@ == decoded_utf16(units_of(bytes@)),
{
    let units = text_units(bytes);
    from_utf16_lossy(units.as_slice())
}

/// No character but the NUL character is written with a zero unit.
proof fn lemma_units_are_not_zero(text: Seq<char>)
    requires
        forall|i: int| 0 <= i < text.len() ==> (#[trigger] text[i]) as u32 != 0,
    ensures
        forall|i: int| 0 <= i < utf16(text).len() ==> #[trigger] utf16(text)[i] != 0,
    decreases text.len(),
{
    if text.len() > 0 {
        let rest = text.drop_first();
        assert forall|i: int| 0 <= i < rest.len() implies (#[trigger] rest[i]) as u32 != 0 by {
            assert(rest[i] == text[i + 1]);
        }
        lemma_units_are_not_zero(rest);
        let first = crate::ui::utf16_of(text[0]);
        assert(text[0] as u32 != 0);
        assert forall|i: int| 0 <= i < first.len() implies #[trigger] first[i] != 0 by {
            let n = text[0] as u32;
            if n < 0x10000 {
                assert(first[0] == n as u16);
                assert(n != 0 && n < 0x10000 ==> n as u16 != 0) by (bit_vector);
            } else {
                let high: int = 0xD800 + (n - 0x10000) / 1024;
                let low: int = 0xDC00 + (n - 0x10000) % 1024;
                vstd::utf8::char_is_scalar(text[0]);
                assert(n <= 0x10FFFF);
                assert(0 <= (n - 0x10000) / 1024 < 1024);
                assert(0xD800 <= high < 0x10000);
                assert(0xDC00 <= low < 0x10000);
                assert(first[0] == high as u16 && first[1] == low as u16);
            }
        }
        let all = first + utf16(rest);
        assert forall|i: int| 0 <= i < all.len() implies #[trigger] all[i] != 0 by {
            if i >= first.len() {
                assert(all[i] == utf16(rest)[i - first.len()]);
            }
        }
    }
}

/// Units with no zero among them, written out and followed by a zero unit, read back as the
/// same units.
proof fn lemma_units_read_back(units: Seq<u16>)
    requires
        forall|i: int| 0 <= i < units.len() ==> #[trigger] units[i] != 0,
    ensures
        units_of(bytes_of(units.push(0))) == units,
    decreases units.len(),
{
    let written = bytes_of(units.push(0));
    if units.len() == 0 {
        assert(units.push(0).drop_first() == Seq::<u16>::empty());
        assert(written[0] == 0 && written[1] == 0);
    } else {
        let rest = units.drop_first();
        assert forall|i: int| 0 <= i < rest.len() implies #[trigger] rest[i] != 0 by {
            assert(rest[i] == units[i + 1]);
        }
        lemma_units_read_back(rest);
        assert(units.push(0).drop_first() == rest.push(0));
        assert(units.push(0)[0] == units[0]);
        let u = units[0];
        assert(written[0] == (u % 256) as u8 && written[1] == (u / 256) as u8);
        assert(((u % 256) as u8 + 256 * ((u / 256) as u8)) as u16 == u);
        assert(written.skip(2) == bytes_of(rest.push(0)));
        assert(seq![u] + rest == units);
    }
}

/// Text put on the clipboard as its UTF-16 and a terminating zero reads back as the same text,
/// however many lines it has and whatever characters beyond the basic plane it holds, as long
/// as it holds no NUL character, which would end it.
pub proof fn lemma_clipboard_text_reads_back(text: Seq<char>)
    requires
        forall|i: int| 0 <= i < text.len() ==> (#[trigger] text[i]) as u32 != 0,
    ensures
        units_of(bytes_of(utf16(text).push(0))) == utf16(text),
        decoded_utf16(units_of(bytes_of(utf16(text).push(0)))) == text,
{
    lemma_units_are_not_zero(text);
    lemma_units_read_back(utf16(text));
    lemma_utf16_decodes_back(text);
}

} // verus!
