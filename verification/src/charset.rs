//! The characters shown for bytes: code pages, Braille patterns, UTF-8.

use crate::bytes::{is_printable, push_bytes, DOT};
use crate::options::CharTable;
use vstd::prelude::*;
use vstd::utf8::*;

verus! {

/// Code page 437, by byte value.
pub const CP437: [char; 256] = [
    ' ','☺','☻','♥','♦','♣','♠','•','◘','○','◙','♂','♀','♪','♫','☼',
    '►','◄','↕','‼','¶','§','▬','↨','↑','↓','→','←','∟','↔','▲','▼',
    ' ','!','"','#','$','%','&','\'','(',')','*','+',',','-','.','/',
    '0','1','2','3','4','5','6','7','8','9',':',';','<','=','>','?',
    '@','A','B','C','D','E','F','G','H','I','J','K','L','M','N','O',
    'P','Q','R','S','T','U','V','W','X','Y','Z','[','\\',']','^','_',
    '`','a','b','c','d','e','f','g','h','i','j','k','l','m','n','o',
    'p','q','r','s','t','u','v','w','x','y','z','{','|','}','~','⌂',
    'Ç','ü','é','â','ä','à','å','ç','ê','ë','è','ï','î','ì','Ä','Å',
    'É','æ','Æ','ô','ö','ò','û','ù','ÿ','Ö','Ü','¢','£','¥','₧','ƒ',
    'á','í','ó','ú','ñ','Ñ','ª','º','¿','⌐','¬','½','¼','¡','«','»',
    '░','▒','▓','│','┤','╡','╢','╖','╕','╣','║','╗','╝','╜','╛','┐',
    '└','┴','┬','├','─','┼','╞','╟','╚','╔','╩','╦','╠','═','╬','╧',
    '╨','╤','╥','╙','╘','╒','╓','╫','╪','┘','┌','█','▄','▌','▐','▀',
    'α','ß','Γ','π','Σ','σ','µ','τ','Φ','Θ','Ω','δ','∞','φ','ε','∩',
    '≡','±','≥','≤','⌠','⌡','÷','≈','°','∙','·','√','ⁿ','²','■',' ',
];

/// The ASCII character for an EBCDIC byte, or a dot where there is none.
pub open spec fn ebcdic_to_ascii(b: u8) -> u8 {
    if 0xf0 <= b <= 0xf9 {
        (b - 0xf0 + 0x30) as u8
    } else if 0xc1 <= b <= 0xc9 {
        (b - 0xc1 + 0x41) as u8
    } else if 0xd1 <= b <= 0xd9 {
        (b - 0xd1 + 0x4a) as u8
    } else if 0xe2 <= b <= 0xe9 {
        (b - 0xe2 + 0x53) as u8
    } else if 0x81 <= b <= 0x89 {
        (b - 0x81 + 0x61) as u8
    } else if 0x91 <= b <= 0x99 {
        (b - 0x91 + 0x6a) as u8
    } else if 0xa2 <= b <= 0xa9 {
        (b - 0xa2 + 0x73) as u8
    } else {
        match b {
            0x40 => 0x20,
            0x4b => 0x2e,
            0x4c => 0x3c,
            0x4d => 0x28,
            0x4e => 0x2b,
            0x4f => 0x7c,
            0x50 => 0x26,
            0x5a => 0x21,
            0x5b => 0x24,
            0x5c => 0x2a,
            0x5d => 0x29,
            0x5e => 0x3b,
            0x5f => 0x5e,
            0x60 => 0x2d,
            0x61 => 0x2f,
            0x6b => 0x2c,
            0x6c => 0x25,
            0x6d => 0x5f,
            0x6e => 0x3e,
            0x6f => 0x3f,
            0x79 => 0x60,
            0x7a => 0x3a,
            0x7b => 0x23,
            0x7c => 0x40,
            0x7d => 0x27,
            0x7e => 0x3d,
            0x7f => 0x22,
            _ => DOT,
        }
    }
}

/// The character of code page 437 for a byte, as UTF-8.
pub open spec fn cp437_text(b: u8) -> Seq<u8> {
    encode_scalar(CP437@[b as int] as u32)
}

/// The Braille pattern whose dots are the bits of `b` (code point `0x2800 + b`), as UTF-8.
pub open spec fn braille_text(b: u8) -> Seq<u8> {
    seq![0xe2u8, (0xa0 + b / 64) as u8, (0x80 + b % 64) as u8]
}

/// What the panel shows for one byte.
pub open spec fn char_text(table: CharTable, b: u8) -> Seq<u8> {
    match table {
        CharTable::Ascii => seq![
            if is_printable(b) {
                b
            } else {
                DOT
            },
        ],
        CharTable::Default => if b == 0 {
            // U+22C4
            seq![0xe2u8, 0x8b, 0x84]
        } else if is_printable(b) {
            seq![b]
        } else {
            // U+2022
            seq![0xe2u8, 0x80, 0xa2]
        },
        CharTable::Braille => braille_text(b),
        CharTable::Cp437 => cp437_text(b),
        CharTable::Ebcdic => seq![ebcdic_to_ascii(b)],
    }
}

/// What the panel shows for a row of bytes.
pub open spec fn panel_text(table: CharTable, src: Seq<u8>) -> Seq<u8>
    decreases src.len(),
{
    if src.len() == 0 {
        seq![]
    } else {
        panel_text(table, src.drop_last()) + char_text(table, src.last())
    }
}

/// The ASCII character for an EBCDIC byte, or a dot where there is none.
pub fn ebcdic_char(b: u8) -> (r: u8)
    ensures
        r == ebcdic_to_ascii(b),
        is_printable(r),
{
    if 0xf0 <= b && b <= 0xf9 {
        b - 0xf0 + 0x30
    } else if 0xc1 <= b && b <= 0xc9 {
        b - 0xc1 + 0x41
    } else if 0xd1 <= b && b <= 0xd9 {
        b - 0xd1 + 0x4a
    } else if 0xe2 <= b && b <= 0xe9 {
        b - 0xe2 + 0x53
    } else if 0x81 <= b && b <= 0x89 {
        b - 0x81 + 0x61
    } else if 0x91 <= b && b <= 0x99 {
        b - 0x91 + 0x6a
    } else if 0xa2 <= b && b <= 0xa9 {
        b - 0xa2 + 0x73
    } else {
        match b {
            0x40 => 0x20,
            0x4b => 0x2e,
            0x4c => 0x3c,
            0x4d => 0x28,
            0x4e => 0x2b,
            0x4f => 0x7c,
            0x50 => 0x26,
            0x5a => 0x21,
            0x5b => 0x24,
            0x5c => 0x2a,
            0x5d => 0x29,
            0x5e => 0x3b,
            0x5f => 0x5e,
            0x60 => 0x2d,
            0x61 => 0x2f,
            0x6b => 0x2c,
            0x6c => 0x25,
            0x6d => 0x5f,
            0x6e => 0x3e,
            0x6f => 0x3f,
            0x79 => 0x60,
            0x7a => 0x3a,
            0x7b => 0x23,
            0x7c => 0x40,
            0x7d => 0x27,
            0x7e => 0x3d,
            0x7f => 0x22,
            _ => DOT,
        }
    }
}

/// The UTF-8 encoding of the Braille pattern for `b`.
pub fn braille_for_byte(b: u8) -> (r: [u8; 3])
    ensures
        r@ == braille_text(b),
{
    let r: [u8; 3] = [0xe2, 0xa0 + b / 64, 0x80 + b % 64];
    assert(r@ =~= braille_text(b));
    r
}

/// Appends the UTF-8 encoding of `c`.
pub fn push_utf8(dst: &mut Vec<u8>, c: char)
    ensures
        final(dst)@ == old(dst)@ + encode_scalar(c as u32),
{
    let s: u32 = c as u32;
    let ghost before = dst@;
    if s <= 0x7f {
        assert((s & 0x7f) as u8 == s as u8) by (bit_vector)
            requires
                s <= 0x7f,
        ;
        dst.push(s as u8);
    } else if s <= 0x7ff {
        dst.push(0xc0 | ((s >> 6) & 0x1f) as u8);
        dst.push(0x80 | (s & 0x3f) as u8);
    } else if s <= 0xffff {
        dst.push(0xe0 | ((s >> 12) & 0x0f) as u8);
        dst.push(0x80 | ((s >> 6) & 0x3f) as u8);
        dst.push(0x80 | (s & 0x3f) as u8);
    } else {
        dst.push(0xf0 | ((s >> 18) & 0x7) as u8);
        dst.push(0x80 | ((s >> 12) & 0x3f) as u8);
        dst.push(0x80 | ((s >> 6) & 0x3f) as u8);
        dst.push(0x80 | (s & 0x3f) as u8);
    }
    assert(dst@ =~= before + encode_scalar(s));
}

/// Appends what the panel shows for `b`.
pub fn ascii_byte(b: u8, table: CharTable, buf: &mut Vec<u8>)
    ensures
        final(buf)@ == old(buf)@ + char_text(table, b),
        // what is visible stands for itself
        table == CharTable::Ascii ==> final(buf)@ == old(buf)@.push(
            if 0x20 <= b <= 0x7e {
                b
            } else {
                0x2e
            },
        ),
{
    let ghost before = buf@;
    match table {
        CharTable::Ascii => {
            buf.push(
                if b >= 0x20 && b <= 0x7e {
                    b
                } else {
                    DOT
                },
            );
        },
        CharTable::Default => {
            if b == 0 {
                push_bytes(buf, &[0xe2, 0x8b, 0x84]);
            } else if b >= 0x20 && b <= 0x7e {
                buf.push(b);
            } else {
                push_bytes(buf, &[0xe2, 0x80, 0xa2]);
            }
        },
        CharTable::Braille => {
            let encoded: [u8; 3] = braille_for_byte(b);
            push_bytes(buf, &encoded);
        },
        CharTable::Cp437 => {
            push_utf8(buf, CP437[b as usize]);
        },
        CharTable::Ebcdic => {
            buf.push(ebcdic_char(b));
        },
    }
    assert(buf@ =~= before + char_text(table, b));
    assert(table == CharTable::Ascii ==> buf@ =~= before.push(
        if 0x20 <= b <= 0x7e {
            b
        } else {
            0x2e
        },
    ));
}

/// Appends what the panel shows for each byte of `src`.
pub fn push_panel(dst: &mut Vec<u8>, src: &[u8], table: CharTable)
    ensures
        final(dst)@ == old(dst)@ + panel_text(table, src@),
{
    let ghost before = dst@;
    for i in 0..src.len()
        invariant
            dst@ == before + panel_text(table, src@.take(i as int)),
    {
        ascii_byte(src[i], table, dst);
        assert(src@.take(i + 1).drop_last() =~= src@.take(i as int));
        assert(dst@ =~= before + panel_text(table, src@.take(i + 1)));
    }
    assert(src@.take(src@.len() as int) =~= src@);
}

/// No character of the panel is encoded with a control character of ASCII.
pub proof fn lemma_char_text_visible(table: CharTable, b: u8, k: int)
    requires
        0 <= k < char_text(table, b).len(),
    ensures
        char_text(table, b)[k] >= 0x20,
{
    if table == CharTable::Cp437 {
        let c = CP437@[b as int];
        let s = c as u32;
        assert(s >= 0x20);
        assert(s <= 0x7f ==> (s & 0x7f) as u8 >= 0x20) by (bit_vector)
            requires
                s >= 0x20,
        ;
        let x2 = ((s >> 6) & 0x1f) as u8;
        let x3 = ((s >> 12) & 0x0f) as u8;
        let x4 = ((s >> 18) & 0x7) as u8;
        let y0 = (s & 0x3f) as u8;
        let y1 = ((s >> 6) & 0x3f) as u8;
        let y2 = ((s >> 12) & 0x3f) as u8;
        assert(0xc0 | x2 >= 0x20 && 0xe0 | x3 >= 0x20 && 0xf0 | x4 >= 0x20 && 0x80 | y0 >= 0x20
            && 0x80 | y1 >= 0x20 && 0x80 | y2 >= 0x20) by (bit_vector);
    }
}

} // verus!
