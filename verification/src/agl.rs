//! Glyph name to Unicode.
//!
//! The Adobe Glyph List carries most of the work; the conventions around it
//! (`uniXXXX`, `name.alt`, underscore-joined ligatures, `Xnn`) are cheap
//! additions.

use vstd::prelude::*;

use crate::glyphdata;
use crate::glyphdata::AGL_PARTS;
use crate::text;

verus! {

/// The value of a hexadecimal digit; zero for anything else.
pub open spec fn hex_value(b: u8) -> int {
    if 0x30 <= b <= 0x39 {
        b - 0x30
    } else if 0x41 <= b <= 0x46 {
        b - 0x41 + 10
    } else if 0x61 <= b <= 0x66 {
        b - 0x61 + 10
    } else {
        0
    }
}

pub(crate) fn hex_digit(b: u8) -> (r: u32)
    ensures
        r == hex_value(b),
        r < 16,
{
    if 0x30 <= b && b <= 0x39 {
        (b - 0x30) as u32
    } else if 0x41 <= b && b <= 0x46 {
        (b - 0x41 + 10) as u32
    } else if 0x61 <= b && b <= 0x66 {
        (b - 0x61 + 10) as u32
    } else {
        0
    }
}

/// The first position from `from` on that holds `b`, or the length.
pub open spec fn next_byte(s: Seq<u8>, b: u8, from: int) -> int
    decreases s.len() - from,
{
    if from < 0 || from >= s.len() {
        s.len() as int
    } else if s[from] == b {
        from
    } else {
        next_byte(s, b, from + 1)
    }
}

proof fn lemma_next_byte(s: Seq<u8>, b: u8, from: int)
    requires
        0 <= from <= s.len(),
    ensures
        from <= next_byte(s, b, from) <= s.len(),
    decreases s.len() - from,
{
    if from < s.len() && s[from] != b {
        lemma_next_byte(s, b, from + 1);
    }
}

pub(crate) fn find_byte(s: &[u8], b: u8, from: usize) -> (r: usize)
    requires
        from <= s@.len(),
    ensures
        r == next_byte(s@, b, from as int),
        from <= r <= s@.len(),
{
    let mut i: usize = from;
    while i < s.len() && s[i] != b
        invariant
            from <= i <= s@.len(),
            next_byte(s@, b, from as int) == next_byte(s@, b, i as int),
        decreases s@.len() - i,
    {
        i += 1;
    }
    i
}

/// The four-digit code point written at a position, as a character.
pub open spec fn code_point_at(s: Seq<u8>, at: int) -> char {
    let v = hex_value(s[at]) * 4096 + hex_value(s[at + 1]) * 256 + hex_value(s[at + 2]) * 16
        + hex_value(s[at + 3]);
    if 0xD800 <= v <= 0xDFFF {
        '\u{FFFD}'
    } else {
        v as char
    }
}

/// The text of the code point groups between two positions.
pub open spec fn code_points(s: Seq<u8>, from: int, to: int) -> Seq<char> {
    Seq::new(((to - from + 1) / 5) as nat, |i: int| code_point_at(s, from + 5 * i))
}

/// One entry of the glyph list.
pub struct Entry {
    /// The name's bytes.
    pub name: Seq<u8>,
    pub text: Seq<char>,
}

/// The entries written in a part of the glyph list from a position on.
pub open spec fn entries_in(part: Seq<u8>, at: int) -> Seq<Entry>
    decreases part.len() - at,
{
    if at < 0 || at >= part.len() {
        Seq::empty()
    } else {
        let end = next_byte(part, 0x0A, at);
        let semi = next_byte(part, 0x3B, at);
        let head = if semi < end {
            seq![
                Entry { name: part.subrange(at, semi), text: code_points(part, semi + 1, end) },
            ]
        } else {
            Seq::empty()
        };
        if end < at || end >= part.len() {
            head
        } else {
            head + entries_in(part, end + 1)
        }
    }
}

/// The bytes of a part of the glyph list.
pub open spec fn part_bytes(part: int) -> Seq<u8> {
    vstd::utf8::encode_utf8(glyphdata::agl_part_text(part)@)
}

/// The entries written in the parts of the glyph list from one on.
pub open spec fn entries_from(part: int) -> Seq<Entry>
    decreases AGL_PARTS - part,
{
    if part < 0 || part >= AGL_PARTS {
        Seq::empty()
    } else {
        entries_in(part_bytes(part), 0) + entries_from(part + 1)
    }
}

/// Whether one name comes before another, byte by byte.
pub open spec fn before(a: Seq<u8>, b: Seq<u8>) -> bool
    decreases a.len(),
{
    if b.len() == 0 {
        false
    } else if a.len() == 0 {
        true
    } else if a[0] != b[0] {
        a[0] < b[0]
    } else {
        before(a.skip(1), b.skip(1))
    }
}

/// An ASCII letter or digit.
pub open spec fn letter_or_digit(b: u8) -> bool {
    0x30 <= b <= 0x39 || 0x41 <= b <= 0x5A || 0x61 <= b <= 0x7A
}

/// Whether a name can stand in the glyph list: it holds letters and digits, and
/// does not have the form of the names that carry no information.
pub open spec fn listable(name: Seq<u8>) -> bool {
    &&& name.len() > 0
    &&& forall|i: int| 0 <= i < name.len() ==> letter_or_digit(#[trigger] name[i])
    &&& !opaque_name(ascii_text(name))
}

/// Those of some entries that can stand in the glyph list, each after a name and
/// after those before it.
pub open spec fn in_order(list: Seq<Entry>, last: Seq<u8>) -> Seq<Entry>
    decreases list.len(),
{
    if list.len() == 0 {
        Seq::empty()
    } else if listable(list[0].name) && before(last, list[0].name) {
        seq![list[0]] + in_order(list.skip(1), list[0].name)
    } else {
        in_order(list.skip(1), last)
    }
}

/// The Adobe Glyph List: its entries, ordered by name. One that could not stand
/// there, or stood out of order, would be left out; as written, none is.
pub open spec fn glyph_list() -> Seq<Entry> {
    in_order(entries_from(0), Seq::empty())
}

/// The text of the first entry of a list with a name.
pub open spec fn text_among(list: Seq<Entry>, name: Seq<u8>) -> Option<Seq<char>>
    decreases list.len(),
{
    if list.len() == 0 {
        None
    } else if list[0].name == name {
        Some(list[0].text)
    } else {
        text_among(list.skip(1), name)
    }
}

/// The name of the first entry of a list whose text is a character.
pub open spec fn name_among(list: Seq<Entry>, c: char) -> Option<Seq<char>>
    decreases list.len(),
{
    if list.len() == 0 {
        None
    } else if list[0].text == seq![c] {
        Some(ascii_text(list[0].name))
    } else {
        name_among(list.skip(1), c)
    }
}

/// The text that the Adobe Glyph List gives a name.
pub open spec fn exact_text(name: Seq<char>) -> Option<Seq<char>> {
    text_among(glyph_list(), vstd::utf8::encode_utf8(name))
}

/// The name that the Adobe Glyph List gives a character: its first.
pub open spec fn name_text(c: char) -> Option<Seq<char>> {
    name_among(glyph_list(), c)
}

/// The entries that are written from a position of a part on.
spec fn written_from(part: int, at: int) -> Seq<Entry> {
    entries_in(part_bytes(part), at) + entries_from(part + 1)
}

/// The entry of a line comes first, and the rest is what is written from the
/// next line on.
proof fn lemma_written_line(part: int, at: int)
    requires
        0 <= part < AGL_PARTS,
        0 <= at < part_bytes(part).len(),
    ensures
        ({
            let s = part_bytes(part);
            let end = next_byte(s, 0x0A, at);
            let semi = next_byte(s, 0x3B, at);
            let next = if end < s.len() {
                end + 1
            } else {
                s.len() as int
            };
            &&& at <= end <= s.len()
            &&& written_from(part, at) == if semi < end {
                seq![
                    Entry { name: s.subrange(at, semi), text: code_points(s, semi + 1, end) },
                ] + written_from(part, next)
            } else {
                written_from(part, next)
            }
        }),
{
    let s = part_bytes(part);
    let end = next_byte(s, 0x0A, at);
    let semi = next_byte(s, 0x3B, at);
    let rest = entries_from(part + 1);
    lemma_next_byte(s, 0x0A, at);
    let head = if semi < end {
        seq![Entry { name: s.subrange(at, semi), text: code_points(s, semi + 1, end) }]
    } else {
        Seq::empty()
    };
    if end < s.len() {
        assert((head + entries_in(s, end + 1)) + rest =~= head + (entries_in(s, end + 1) + rest));
    } else {
        assert(head + rest =~= head + (entries_in(s, s.len() as int) + rest));
    }
    let tail = written_from(
        part,
        if end < s.len() {
            end + 1
        } else {
            s.len() as int
        },
    );
    assert(Seq::<Entry>::empty() + tail =~= tail);
}

proof fn lemma_written_part(part: int)
    requires
        0 <= part < AGL_PARTS,
    ensures
        written_from(part, part_bytes(part).len() as int) == entries_from(part + 1),
        part + 1 < AGL_PARTS ==> entries_from(part + 1) == written_from(part + 1, 0),
{
    assert(Seq::<Entry>::empty() + entries_from(part + 1) =~= entries_from(part + 1));
}

/// Reading one entry more.
proof fn lemma_one_more(e: Entry, rest: Seq<Entry>, last: Seq<u8>, name: Seq<u8>, c: char)
    ensures
        ({
            let all = in_order(seq![e] + rest, last);
            if listable(e.name) && before(last, e.name) {
                let more = in_order(rest, e.name);
                &&& text_among(all, name) == if e.name == name {
                    Some(e.text)
                } else {
                    text_among(more, name)
                }
                &&& name_among(all, c) == if e.text == seq![c] {
                    Some(ascii_text(e.name))
                } else {
                    name_among(more, c)
                }
            } else {
                all == in_order(rest, last)
            }
        }),
{
    let all = seq![e] + rest;
    assert(all.skip(1) =~= rest);
    let more = in_order(rest, e.name);
    assert((seq![e] + more).skip(1) =~= more);
}

fn char_at(s: &[u8], at: usize) -> (r: char)
    requires
        at + 4 <= s@.len(),
    ensures
        r == code_point_at(s@, at as int),
{
    let v: u32 = hex_digit(s[at]) * 4096 + hex_digit(s[at + 1]) * 256 + hex_digit(s[at + 2]) * 16
        + hex_digit(s[at + 3]);
    match char::from_u32(v) {
        Some(c) => c,
        None => '\u{FFFD}',
    }
}

pub(crate) fn read_code_points(s: &[u8], from: usize, to: usize) -> (r: String)
    requires
        from <= to <= s@.len(),
    ensures
        r@ == code_points(s@, from as int, to as int),
{
    let mut out = String::new();
    let mut at: usize = from;
    let ghost mut n: nat = 0;
    while to - at >= 4
        invariant
            from <= at,
            to <= s@.len(),
            at <= to,
            at == from + 5 * n || (at == to && at == from + 5 * n - 1 && n > 0),
            out@ == Seq::new(n, |i: int| code_point_at(s@, from + 5 * i)),
        decreases to - at,
    {
        out.push(char_at(s, at));
        proof {
            n = n + 1;
        }
        assert(out@ =~= Seq::new(n, |i: int| code_point_at(s@, from + 5 * i)));
        if to - at >= 5 {
            at += 5;
        } else {
            at = to;
        }
    }
    assert(n == ((to - from + 1) / 5) as nat);
    out
}

fn same_bytes(a: &[u8], b: &[u8]) -> (r: bool)
    ensures
        r == (a@ == b@),
{
    if a.len() != b.len() {
        return false;
    }
    let mut i: usize = 0;
    while i < a.len()
        invariant
            a@.len() == b@.len(),
            i <= a@.len(),
            forall|j: int| 0 <= j < i ==> a@[j] == b@[j],
        decreases a@.len() - i,
    {
        if a[i] != b[i] {
            return false;
        }
        i += 1;
    }
    assert(a@ =~= b@);
    true
}

fn comes_before(a: &[u8], b: &[u8]) -> (r: bool)
    ensures
        r == before(a@, b@),
{
    let mut i: usize = 0;
    assert(a@.skip(0) =~= a@);
    assert(b@.skip(0) =~= b@);
    while i < a.len() && i < b.len() && a[i] == b[i]
        invariant
            i <= a@.len(),
            i <= b@.len(),
            before(a@, b@) == before(a@.skip(i as int), b@.skip(i as int)),
        decreases a@.len() - i,
    {
        assert(a@.skip(i as int).skip(1) =~= a@.skip(i + 1));
        assert(b@.skip(i as int).skip(1) =~= b@.skip(i + 1));
        i += 1;
    }
    if i >= b.len() {
        false
    } else if i >= a.len() {
        true
    } else {
        a[i] < b[i]
    }
}

/// Whether a name can stand in the glyph list.
fn can_be_listed(name: &[u8]) -> (r: bool)
    ensures
        r == listable(name@),
{
    let n: usize = name.len();
    if n == 0 {
        return false;
    }
    let mut i: usize = 0;
    while i < n
        invariant
            i <= n,
            n == name@.len(),
            forall|j: int| 0 <= j < i ==> letter_or_digit(#[trigger] name@[j]),
        decreases n - i,
    {
        let b: u8 = name[i];
        if !((0x30 <= b && b <= 0x39) || (0x41 <= b && b <= 0x5A) || (0x61 <= b && b <= 0x7A)) {
            assert(!letter_or_digit(name@[i as int]));
            return false;
        }
        i += 1;
    }
    let ghost chars = ascii_text(name@);
    if !(0x30 <= name[n - 1] && name[n - 1] <= 0x39) {
        // A name that carries no information ends in a digit.
        assert(!opaque_name(chars)) by {
            assert(!('0' <= chars[n - 1] <= '9'));
        }
        return true;
    }
    let t = read_ascii(name, 0, n);
    assert(name@.subrange(0, n as int) =~= name@);
    !is_opaque(t.as_str())
}

/// The Adobe Glyph List proper.
pub fn exact(name: &str) -> (r: Option<String>)
    ensures
        text::view_opt(r) == exact_text(name@),
{
    let bytes = name.as_bytes();
    let ghost key = vstd::utf8::encode_utf8(name@);
    let mut last: &'static [u8] = vstd::slice::slice_subrange(
        glyphdata::agl_part(0).as_bytes(),
        0,
        0,
    );
    let mut part: usize = 0;
    assert(last@ =~= Seq::empty());
    assert(entries_from(0) == written_from(0, 0));
    while part < AGL_PARTS
        invariant
            part <= AGL_PARTS,
            bytes@ == key,
            key == vstd::utf8::encode_utf8(name@),
            exact_text(name@) == text_among(in_order(entries_from(part as int), last@), key),
        decreases AGL_PARTS - part,
    {
        let s: &'static [u8] = glyphdata::agl_part(part).as_bytes();
        let mut at: usize = 0;
        assert(s@ == part_bytes(part as int));
        assert(entries_from(part as int) == written_from(part as int, 0));
        while at < s.len()
            invariant
                part < AGL_PARTS,
                at <= s@.len(),
                s@ == part_bytes(part as int),
                bytes@ == key,
                exact_text(name@) == text_among(
                    in_order(written_from(part as int, at as int), last@),
                    key,
                ),
            decreases s@.len() - at,
        {
            let end: usize = find_byte(s, 0x0A, at);
            let semi: usize = find_byte(s, 0x3B, at);
            let next: usize = if end < s.len() {
                end + 1
            } else {
                s.len()
            };
            let ghost rest = written_from(part as int, next as int);
            proof {
                lemma_written_line(part as int, at as int);
            }
            if semi < end {
                let entry = vstd::slice::slice_subrange(s, at, semi);
                let ghost e = Entry { name: entry@, text: code_points(s@, semi + 1, end as int) };
                proof {
                    lemma_one_more(e, rest, last@, key, 'a');
                }
                if can_be_listed(entry) && comes_before(last, entry) {
                    if same_bytes(entry, bytes) {
                        return Some(read_code_points(s, semi + 1, end));
                    }
                    last = entry;
                }
            }
            at = next;
        }
        proof {
            lemma_written_part(part as int);
        }
        part += 1;
    }
    None
}

/// The characters of a run of ASCII bytes.
pub open spec fn ascii_text(s: Seq<u8>) -> Seq<char> {
    Seq::new(s.len(), |i: int| s[i] as char)
}

pub(crate) fn read_ascii(s: &[u8], from: usize, to: usize) -> (r: String)
    requires
        from <= to <= s@.len(),
    ensures
        r@ == ascii_text(s@.subrange(from as int, to as int)),
{
    let mut out = String::new();
    let mut i: usize = from;
    while i < to
        invariant
            from <= i <= to <= s@.len(),
            out@ == ascii_text(s@.subrange(from as int, i as int)),
        decreases to - i,
    {
        out.push(s[i] as char);
        i += 1;
        assert(out@ =~= ascii_text(s@.subrange(from as int, i as int)));
    }
    out
}

/// Whether a run of code points is one character.
fn spells(s: &[u8], from: usize, to: usize, c: char) -> (r: bool)
    requires
        from <= to <= s@.len(),
    ensures
        r == (code_points(s@, from as int, to as int) == seq![c]),
{
    let r = to - from >= 4 && to - from < 9 && char_at(s, from) == c;
    proof {
        let t = code_points(s@, from as int, to as int);
        if r {
            assert(t =~= seq![c]);
        } else if t == seq![c] {
            assert(t.len() == 1);
            assert(t[0] == code_point_at(s@, from as int));
            assert(false);
        }
    }
    r
}

/// The glyph name for a character: the Adobe Glyph List, run backwards.
///
/// A linear scan: the list is sorted by name. The first match wins, which
/// matters because several names share a character.
pub fn name_of(c: char) -> (r: Option<String>)
    ensures
        text::view_opt(r) == name_text(c),
{
    let mut last: &'static [u8] = vstd::slice::slice_subrange(
        glyphdata::agl_part(0).as_bytes(),
        0,
        0,
    );
    let mut part: usize = 0;
    assert(last@ =~= Seq::empty());
    while part < AGL_PARTS
        invariant
            part <= AGL_PARTS,
            name_text(c) == name_among(in_order(entries_from(part as int), last@), c),
        decreases AGL_PARTS - part,
    {
        let s: &'static [u8] = glyphdata::agl_part(part).as_bytes();
        let mut at: usize = 0;
        assert(s@ == part_bytes(part as int));
        assert(entries_from(part as int) == written_from(part as int, 0));
        while at < s.len()
            invariant
                part < AGL_PARTS,
                at <= s@.len(),
                s@ == part_bytes(part as int),
                name_text(c) == name_among(
                    in_order(written_from(part as int, at as int), last@),
                    c,
                ),
            decreases s@.len() - at,
        {
            let end: usize = find_byte(s, 0x0A, at);
            let semi: usize = find_byte(s, 0x3B, at);
            let next: usize = if end < s.len() {
                end + 1
            } else {
                s.len()
            };
            let ghost rest = written_from(part as int, next as int);
            proof {
                lemma_written_line(part as int, at as int);
            }
            if semi < end {
                let entry = vstd::slice::slice_subrange(s, at, semi);
                let ghost e = Entry { name: entry@, text: code_points(s@, semi + 1, end as int) };
                proof {
                    lemma_one_more(e, rest, last@, Seq::empty(), c);
                }
                if can_be_listed(entry) && comes_before(last, entry) {
                    if spells(s, semi + 1, end, c) {
                        return Some(read_ascii(s, at, semi));
                    }
                    last = entry;
                }
            }
            at = next;
        }
        proof {
            lemma_written_part(part as int);
        }
        part += 1;
    }
    None
}

/// A hexadecimal digit.
pub open spec fn hex_char(c: char) -> bool {
    '0' <= c <= '9' || 'A' <= c <= 'F' || 'a' <= c <= 'f'
}

/// The value of a hexadecimal digit.
pub open spec fn hex_char_value(c: char) -> int {
    if '0' <= c <= '9' {
        c as int - '0' as int
    } else if 'A' <= c <= 'F' {
        c as int - 'A' as int + 10
    } else {
        c as int - 'a' as int + 10
    }
}

/// The number that a run of hexadecimal digits writes.
pub open spec fn hex_number(s: Seq<char>) -> int
    decreases s.len(),
{
    if s.len() == 0 {
        0
    } else {
        hex_number(s.drop_last()) * 16 + hex_char_value(s.last())
    }
}

fn is_hex_char(c: char) -> (r: bool)
    ensures
        r == hex_char(c),
{
    ('0' <= c && c <= '9') || ('A' <= c && c <= 'F') || ('a' <= c && c <= 'f')
}

fn hex_char_digit(c: char) -> (r: u32)
    requires
        hex_char(c),
    ensures
        r == hex_char_value(c),
        r < 16,
{
    if '0' <= c && c <= '9' {
        c as u32 - 0x30
    } else if 'A' <= c && c <= 'F' {
        c as u32 - 0x41 + 10
    } else {
        c as u32 - 0x61 + 10
    }
}

/// Whether every character from a position on is a hexadecimal digit.
pub open spec fn all_hex(s: Seq<char>) -> bool {
    forall|i: int| 0 <= i < s.len() ==> hex_char(#[trigger] s[i])
}

fn all_hex_from(s: &Vec<char>, from: usize) -> (r: bool)
    requires
        from <= s@.len(),
    ensures
        r == all_hex(s@.skip(from as int)),
{
    let mut i: usize = from;
    while i < s.len()
        invariant
            from <= i <= s@.len(),
            forall|j: int| from <= j < i ==> hex_char(#[trigger] s@[j]),
        decreases s@.len() - i,
    {
        if !is_hex_char(s[i]) {
            assert(s@.skip(from as int)[i - from] == s@[i as int]);
            return false;
        }
        i += 1;
    }
    assert forall|j: int| 0 <= j < s@.skip(from as int).len() implies hex_char(
        #[trigger] s@.skip(from as int)[j],
    ) by {
        assert(s@[from + j] == s@.skip(from as int)[j]);
    }
    true
}

fn read_hex(s: &Vec<char>, from: usize, to: usize) -> (r: u32)
    requires
        from <= to <= s@.len(),
        to - from <= 6,
        all_hex(s@.subrange(from as int, to as int)),
    ensures
        r == hex_number(s@.subrange(from as int, to as int)),
        to - from <= 4 ==> r <= 0xFFFF,
{
    let mut v: u32 = 0;
    let mut i: usize = from;
    proof {
        assert(s@.subrange(from as int, from as int) =~= Seq::<char>::empty());
    }
    while i < to
        invariant
            from <= i <= to <= s@.len(),
            to - from <= 6,
            all_hex(s@.subrange(from as int, to as int)),
            v == hex_number(s@.subrange(from as int, i as int)),
            i - from == 0 ==> v == 0,
            i - from == 1 ==> v <= 0xF,
            i - from == 2 ==> v <= 0xFF,
            i - from == 3 ==> v <= 0xFFF,
            i - from == 4 ==> v <= 0xFFFF,
            i - from == 5 ==> v <= 0xFFFFF,
            i - from == 6 ==> v <= 0xFFFFFF,
        decreases to - i,
    {
        assert(s@.subrange(from as int, to as int)[i - from] == s@[i as int]);
        let d: u32 = hex_char_digit(s[i]);
        v = v * 16 + d;
        i += 1;
        assert(s@.subrange(from as int, i as int).drop_last() =~= s@.subrange(
            from as int,
            i - 1,
        ));
    }
    v
}

/// The text of a run of UTF-16 code units from one on, if it is well formed and
/// holds no replacement character.
pub open spec fn utf16_text(units: Seq<int>, at: int) -> Option<Seq<char>>
    decreases units.len() - at,
{
    if at < 0 || at >= units.len() {
        Some(Seq::empty())
    } else {
        let u = units[at];
        if u == 0xFFFD || 0xDC00 <= u <= 0xDFFF {
            None
        } else if 0xD800 <= u <= 0xDBFF {
            if at + 1 < units.len() && 0xDC00 <= units[at + 1] <= 0xDFFF {
                match utf16_text(units, at + 2) {
                    Some(rest) => Some(
                        seq![
                            (0x10000 + (u - 0xD800) * 0x400 + (units[at + 1] - 0xDC00)) as char,
                        ] + rest,
                    ),
                    None => None,
                }
            } else {
                None
            }
        } else {
            match utf16_text(units, at + 1) {
                Some(rest) => Some(seq![u as char] + rest),
                None => None,
            }
        }
    }
}

/// The UTF-16 code units written as groups of four hexadecimal digits.
pub open spec fn hex_units(s: Seq<char>) -> Seq<int> {
    Seq::new(s.len() / 4, |i: int| hex_number(s.subrange(4 * i, 4 * i + 4)))
}

/// The text that a `uniXXXX` or `uXXXX` name encodes.
pub open spec fn uni_text(name: Seq<char>) -> Option<Seq<char>> {
    if name.len() >= 7 && name.take(3) == seq!['u', 'n', 'i'] && (name.len() - 3) % 4 == 0
        && all_hex(name.skip(3)) {
        utf16_text(hex_units(name.skip(3)), 0)
    } else if 5 <= name.len() <= 7 && name[0] == 'u' && all_hex(name.skip(1)) {
        match text::scalar_value(hex_number(name.skip(1))) {
            Some(c) => Some(seq![c]),
            None => None,
        }
    } else {
        None
    }
}

fn decode_units(units: &Vec<u32>) -> (r: Option<String>)
    requires
        forall|i: int| 0 <= i < units@.len() ==> #[trigger] units@[i] <= 0xFFFF,
    ensures
        text::view_opt(r) == utf16_text(Seq::new(units@.len(), |i: int| units@[i] as int), 0),
{
    let ghost all = Seq::new(units@.len(), |i: int| units@[i] as int);
    let mut out = String::new();
    let mut i: usize = 0;
    while i < units.len()
        invariant
            i <= units@.len(),
            all == Seq::new(units@.len(), |i: int| units@[i] as int),
            forall|i: int| 0 <= i < units@.len() ==> #[trigger] units@[i] <= 0xFFFF,
            utf16_text(all, 0) == match utf16_text(all, i as int) {
                Some(rest) => Some(out@ + rest),
                None => None,
            },
        decreases units@.len() - i,
    {
        let u: u32 = units[i];
        let ghost before = out@;
        let ghost at = i as int;
        assert(all[at] == u);
        if u == 0xFFFD || (0xDC00 <= u && u <= 0xDFFF) {
            return None;
        }
        if 0xD800 <= u && u <= 0xDBFF {
            if i + 1 >= units.len() || units[i + 1] < 0xDC00 || units[i + 1] > 0xDFFF {
                return None;
            }
            let low: u32 = units[i + 1];
            assert(all[at + 1] == low);
            let v: u32 = 0x10000 + (u - 0xD800) * 0x400 + (low - 0xDC00);
            match char::from_u32(v) {
                Some(c) => { out.push(c); },
                None => { return None; },
            }
            i += 2;
        } else {
            match char::from_u32(u) {
                Some(c) => { out.push(c); },
                None => { return None; },
            }
            i += 1;
        }
        proof {
            match utf16_text(all, i as int) {
                Some(rest) => {
                    assert(out@ + rest =~= before + (seq![out@.last()] + rest));
                },
                None => {},
            }
        }
    }
    assert(out@ + Seq::<char>::empty() =~= out@);
    Some(out)
}

/// `uniXXXX` (one or more UTF-16 code units) and `uXXXX`..`uXXXXXX`.
fn uni_convention(name: &Vec<char>) -> (r: Option<String>)
    ensures
        text::view_opt(r) == uni_text(name@),
{
    if name.len() >= 7 && name[0] == 'u' && name[1] == 'n' && name[2] == 'i' && (name.len() - 3) % 4
        == 0 && all_hex_from(name, 3) {
        assert(name@.take(3) =~= seq!['u', 'n', 'i']);
        let ghost rest = name@.skip(3);
        let mut units: Vec<u32> = Vec::new();
        let mut at: usize = 3;
        while at < name.len()
            invariant
                3 <= at <= name@.len(),
                (name@.len() - 3) % 4 == 0,
                rest == name@.skip(3),
                all_hex(rest),
                at == 3 + 4 * units@.len(),
                forall|i: int|
                    0 <= i < units@.len() ==> #[trigger] units@[i] <= 0xFFFF && units@[i]
                        == hex_number(rest.subrange(4 * i, 4 * i + 4)),
            decreases name@.len() - at,
        {
            let ghost group = name@.subrange(at as int, at + 4);
            assert(group =~= rest.subrange(at - 3, at + 1));
            assert forall|j: int| 0 <= j < group.len() implies hex_char(#[trigger] group[j]) by {
                assert(group[j] == rest[at - 3 + j]);
            }
            units.push(read_hex(name, at, at + 4));
            at += 4;
        }
        assert(Seq::new(units@.len(), |i: int| units@[i] as int) =~= hex_units(rest));
        return decode_units(&units);
    }
    assert(name@.len() >= 7 && name@.take(3) == seq!['u', 'n', 'i'] ==> name@[0] == 'u' && name@[1]
        == 'n' && name@[2] == 'i') by {
        if name@.len() >= 7 && name@.take(3) == seq!['u', 'n', 'i'] {
            assert(name@.take(3)[0] == name@[0]);
            assert(name@.take(3)[1] == name@[1]);
            assert(name@.take(3)[2] == name@[2]);
        }
    }
    if 5 <= name.len() && name.len() <= 7 && name[0] == 'u' && all_hex_from(name, 1) {
        assert(name@.subrange(1, name@.len() as int) =~= name@.skip(1));
        let v: u32 = read_hex(name, 1, name.len());
        return match char::from_u32(v) {
            Some(c) => {
                let mut out = String::new();
                out.push(c);
                assert(out@ =~= seq![c]);
                Some(out)
            },
            None => None,
        };
    }
    None
}

/// Whether a name is a prefix followed by one or more digits.
pub open spec fn numbered(name: Seq<char>, prefix: Seq<char>) -> bool {
    &&& name.len() > prefix.len()
    &&& name.take(prefix.len() as int) == prefix
    &&& forall|i: int| prefix.len() <= i < name.len() ==> '0' <= #[trigger] name[i] <= '9'
}

/// A name that carries no information about what the glyph means.
pub open spec fn opaque_name(name: Seq<char>) -> bool {
    ||| numbered(name, seq!['c', 'i', 'd'])
    ||| numbered(name, seq!['g', 'l', 'y', 'p', 'h'])
    ||| numbered(name, seq!['i', 'n', 'd', 'e', 'x'])
    ||| numbered(name, seq!['g'])
    ||| numbered(name, seq![])
}

fn digits_from(name: &Vec<char>, from: usize) -> (r: bool)
    ensures
        r == (name@.len() > from && forall|i: int|
            from <= i < name@.len() ==> '0' <= #[trigger] name@[i] <= '9'),
{
    if name.len() <= from {
        return false;
    }
    let mut i: usize = from;
    while i < name.len()
        invariant
            from <= i <= name@.len(),
            forall|j: int| from <= j < i ==> '0' <= #[trigger] name@[j] <= '9',
        decreases name@.len() - i,
    {
        if !('0' <= name[i] && name[i] <= '9') {
            return false;
        }
        i += 1;
    }
    true
}

fn starts_with(name: &Vec<char>, prefix: &Vec<char>) -> (r: bool)
    ensures
        r == (name@.len() >= prefix@.len() && name@.take(prefix@.len() as int) == prefix@),
{
    if name.len() < prefix.len() {
        return false;
    }
    let mut i: usize = 0;
    while i < prefix.len()
        invariant
            i <= prefix@.len() <= name@.len(),
            forall|j: int| 0 <= j < i ==> name@[j] == prefix@[j],
        decreases prefix@.len() - i,
    {
        if name[i] != prefix[i] {
            assert(name@.take(prefix@.len() as int)[i as int] == name@[i as int]);
            return false;
        }
        i += 1;
    }
    assert(name@.take(prefix@.len() as int) =~= prefix@);
    true
}

fn numbered_name(name: &Vec<char>, prefix: &str) -> (r: bool)
    ensures
        r == numbered(name@, prefix@),
{
    let prefix = text::chars_of(prefix);
    starts_with(name, &prefix) && digits_from(name, prefix.len())
}

fn opaque_chars(name: &Vec<char>) -> (r: bool)
    ensures
        r == opaque_name(name@),
{
    proof {
        reveal_strlit("cid");
        reveal_strlit("glyph");
        reveal_strlit("index");
        reveal_strlit("g");
        reveal_strlit("");
        assert("cid"@ =~= seq!['c', 'i', 'd']);
        assert("glyph"@ =~= seq!['g', 'l', 'y', 'p', 'h']);
        assert("index"@ =~= seq!['i', 'n', 'd', 'e', 'x']);
        assert("g"@ =~= seq!['g']);
        assert(""@ =~= seq![]);
    }
    numbered_name(name, "cid") || numbered_name(name, "glyph") || numbered_name(name, "index")
        || numbered_name(name, "g") || numbered_name(name, "")
}

/// True for names that carry no information about what the glyph means.
pub fn is_opaque(name: &str) -> (r: bool)
    ensures
        r == opaque_name(name@),
{
    opaque_chars(&text::chars_of(name))
}

/// The value of a decimal digit.
pub open spec fn digit_value(c: char) -> int {
    c as int - '0' as int
}

/// The number that the digits after a name's first letter write.
pub open spec fn letter_number(name: Seq<char>) -> int {
    if name.len() == 3 {
        digit_value(name[1]) * 10 + digit_value(name[2])
    } else {
        digit_value(name[1]) * 100 + digit_value(name[2]) * 10 + digit_value(name[3])
    }
}

/// A letter before two or three digits. Names in `u` follow the `uni`
/// conventions, and those that carry no information are not read as numbers.
pub open spec fn letter_numbered(name: Seq<char>) -> bool {
    &&& 3 <= name.len() <= 4
    &&& 'A' <= name[0] <= 'Z' || 'a' <= name[0] <= 'z'
    &&& name[0] != 'u'
    &&& forall|i: int| 1 <= i < name.len() ==> '0' <= #[trigger] name[i] <= '9'
    &&& !opaque_name(name)
}

/// The text of an `Xnn` name: the character of the ASCII code that it writes.
pub open spec fn coded_text(name: Seq<char>) -> Option<Seq<char>> {
    if letter_numbered(name) && letter_number(name) <= 127 {
        Some(seq![letter_number(name) as char])
    } else {
        None
    }
}

/// What a name says on its own: the glyph list, the `uni` conventions, and the
/// `Xnn` fallback.
pub open spec fn word_text(name: Seq<char>) -> Option<Seq<char>> {
    if name.len() == 0 {
        None
    } else if exact_text(name) is Some {
        exact_text(name)
    } else if uni_text(name) is Some {
        uni_text(name)
    } else {
        coded_text(name)
    }
}

/// What a component says: its text without a suffix.
pub open spec fn component_text(name: Seq<char>) -> Option<Seq<char>> {
    word_text(name.take(text::next_char(name, '.', 0)))
}

/// The texts of the components joined, if every component has one.
pub open spec fn joined_text(parts: Seq<Seq<char>>) -> Option<Seq<char>>
    decreases parts.len(),
{
    if parts.len() == 0 {
        Some(Seq::empty())
    } else {
        match (joined_text(parts.drop_last()), component_text(parts.last())) {
            (Some(front), Some(last)) => Some(front + last),
            _ => None,
        }
    }
}

/// The text of an underscore-joined ligature name: all its components, of which
/// there are at least two.
pub open spec fn ligature_text(name: Seq<char>) -> Option<Seq<char>> {
    let parts = text::filled(text::split(name, '_'));
    if parts.len() > 1 {
        joined_text(parts)
    } else {
        None
    }
}

/// The text that a glyph name represents.
pub open spec fn lookup_text(name: Seq<char>) -> Option<Seq<char>> {
    let dot = text::next_char(name, '.', 0);
    if word_text(name) is Some {
        word_text(name)
    } else if 0 < dot < name.len() && word_text(name.take(dot)) is Some {
        word_text(name.take(dot))
    } else {
        ligature_text(name)
    }
}

/// `Xnn`: a letter and the number of an ASCII character.
fn letter_convention(name: &Vec<char>) -> (r: Option<String>)
    ensures
        text::view_opt(r) == coded_text(name@),
{
    if name.len() < 3 || name.len() > 4 {
        return None;
    }
    let letter = ('A' <= name[0] && name[0] <= 'Z') || ('a' <= name[0] && name[0] <= 'z');
    if !letter || name[0] == 'u' || !digits_from(name, 1) || opaque_chars(name) {
        return None;
    }
    let a: u32 = name[1] as u32 - 0x30;
    let b: u32 = name[2] as u32 - 0x30;
    let v: u32 = if name.len() == 3 {
        a * 10 + b
    } else {
        a * 100 + b * 10 + (name[3] as u32 - 0x30)
    };
    if v > 127 {
        return None;
    }
    let mut out = String::new();
    out.push(v as u8 as char);
    assert(out@ =~= seq![letter_number(name@) as char]);
    Some(out)
}

/// The parts of `lookup` that look at no suffix and no ligature.
fn lookup_word(name: &Vec<char>) -> (r: Option<String>)
    ensures
        text::view_opt(r) == word_text(name@),
{
    if name.len() == 0 {
        return None;
    }
    let whole = text::string_of(name);
    let listed = exact(whole.as_str());
    if listed.is_some() {
        return listed;
    }
    let encoded = uni_convention(name);
    if encoded.is_some() {
        return encoded;
    }
    letter_convention(name)
}

/// The parts of `lookup` that do not recurse into ligature handling.
fn lookup_without_suffix(name: &Vec<char>) -> (r: Option<String>)
    ensures
        text::view_opt(r) == component_text(name@),
{
    let dot: usize = text::find_char(name, '.', 0);
    let base = text::slice(name, 0, dot);
    assert(base@ =~= name@.take(dot as int));
    lookup_word(&base)
}

/// Join the components of a ligature name. All or nothing: a name whose
/// components do not all resolve is not a ligature.
fn join_components(parts: &Vec<Vec<char>>) -> (r: Option<String>)
    ensures
        text::view_opt(r) == joined_text(text::texts(parts@)),
{
    let ghost all = text::texts(parts@);
    let mut out = String::new();
    let mut i: usize = 0;
    assert(all.take(0) =~= Seq::<Seq<char>>::empty());
    while i < parts.len()
        invariant
            i <= parts@.len(),
            all == text::texts(parts@),
            joined_text(all.take(i as int)) == Some(out@),
        decreases parts@.len() - i,
    {
        assert(all.take(i + 1).drop_last() =~= all.take(i as int));
        assert(all.take(i + 1).last() == parts@[i as int]@);
        match lookup_without_suffix(&parts[i]) {
            Some(t) => { text::append(&mut out, t.as_str()); },
            None => {
                proof {
                    lemma_joined_none(all, i + 1);
                }
                return None;
            },
        }
        i += 1;
    }
    assert(all.take(i as int) =~= all);
    Some(out)
}

proof fn lemma_joined_none(parts: Seq<Seq<char>>, n: int)
    requires
        0 <= n <= parts.len(),
        joined_text(parts.take(n)) is None,
    ensures
        joined_text(parts) is None,
    decreases parts.len(),
{
    if n == parts.len() {
        assert(parts.take(n) =~= parts);
    } else {
        assert(parts.drop_last().take(n) =~= parts.take(n));
        lemma_joined_none(parts.drop_last(), n);
    }
}

/// Resolve a glyph name to the text it represents.
///
/// Tries, in order:
///
/// 1. the Adobe Glyph List proper,
/// 2. the `uniXXXX` and `uXXXXX` conventions, which encode the code point,
/// 3. the `name.alt` suffix convention, where `f_i.sc` is a styled variant of
///    `f_i` and carries the same text,
/// 4. ligature names joined by underscores, `f_i` being "fi",
/// 5. `Xnn` numeric fallbacks that some producers emit for ASCII.
///
/// Returns `None` for a name that carries no information, such as `g34`,
/// `cid7` or `index12`.
pub fn lookup(name: &str) -> (r: Option<String>)
    ensures
        text::view_opt(r) == lookup_text(name@),
{
    let chars = text::chars_of(name);
    let word = lookup_word(&chars);
    if word.is_some() {
        return word;
    }
    let dot: usize = text::find_char(&chars, '.', 0);
    if 0 < dot && dot < chars.len() {
        let base = text::slice(&chars, 0, dot);
        assert(base@ =~= name@.take(dot as int));
        let styled = lookup_word(&base);
        if styled.is_some() {
            return styled;
        }
    }
    let parts = text::split_filled(&chars, '_');
    assert(parts@.len() == text::texts(parts@).len());
    if parts.len() > 1 {
        join_components(&parts)
    } else {
        None
    }
}

/// The components of a ligature name joined by underscores.
pub open spec fn underscored(parts: Seq<Seq<char>>) -> Seq<char>
    decreases parts.len(),
{
    if parts.len() == 0 {
        Seq::empty()
    } else if parts.len() == 1 {
        parts[0]
    } else {
        underscored(parts.drop_last()) + seq!['_'] + parts.last()
    }
}

/// Components that hold something, and neither underscores nor suffixes.
pub open spec fn bare_components(parts: Seq<Seq<char>>) -> bool {
    forall|i: int|
        0 <= i < parts.len() ==> (#[trigger] parts[i]).len() > 0 && !parts[i].contains('_')
            && !parts[i].contains('.')
}

/// The texts that `lookup` gives the components, in order, if it gives every
/// one of them a text.
pub open spec fn looked_up(parts: Seq<Seq<char>>) -> Option<Seq<char>>
    decreases parts.len(),
{
    if parts.len() == 0 {
        Some(Seq::empty())
    } else {
        match (looked_up(parts.drop_last()), lookup_text(parts.last())) {
            (Some(front), Some(last)) => Some(front + last),
            _ => None,
        }
    }
}

/// A name that carries no information resolves to nothing.
pub proof fn law_opaque_names_resolve_to_nothing(name: Seq<char>)
    requires
        opaque_name(name),
    ensures
        lookup_text(name) is None,
{
    if exact_text(name) is Some {
        lemma_listed_characters(name);
    }
    lemma_opaque_characters(name);
    assert(!name.contains('.'));
    assert(!name.contains('_'));
    lemma_opaque_is_not_uni(name);
    text::lemma_next_char_absent(name, '.', 0);
    text::lemma_split_whole(name, '_');
    lemma_one_component(name);
}

/// A name of the Adobe Glyph List resolves to the list's own text, whatever
/// else its spelling could be read as.
pub proof fn law_listed_names_resolve(name: Seq<char>)
    requires
        exact_text(name) is Some,
    ensures
        lookup_text(name) == exact_text(name),
{
    lemma_listed(name);
}

/// The empty name resolves to nothing.
pub proof fn law_the_empty_name_resolves_to_nothing()
    ensures
        lookup_text(Seq::empty()) is None,
{
    let name = Seq::<char>::empty();
    text::lemma_split_whole(name, '_');
    lemma_one_component(name);
}

/// A suffixed variant resolves as its base does, whatever the suffix.
pub proof fn law_variants_carry_the_base_text(base: Seq<char>, suffix: Seq<char>)
    requires
        base.len() > 0,
        !base.contains('.'),
        !base.contains('_'),
    ensures
        lookup_text(base + seq!['.'] + suffix) == lookup_text(base),
{
    let name = base + seq!['.'] + suffix;
    let dot = base.len() as int;
    lemma_suffixed(base, suffix);
    lemma_bare_lookup(base);
    if word_text(base) is None {
        // The first component is the base with the front of the suffix, and
        // one component without text leaves the ligature without text.
        let cut = text::next_char(name, '_', 0);
        text::lemma_split_first(name, '_');
        let pieces = text::split(name, '_');
        let parts = text::filled(pieces);
        assert(cut > dot) by {
            assert forall|i: int| 0 <= i <= dot implies #[trigger] name[i] != '_' by {
                if i < dot {
                    assert(base.contains(base[i]));
                }
            }
            text::lemma_next_char_after(name, '_', 0, dot + 1);
        }
        let first = name.take(cut);
        assert(pieces[0] == first);
        text::lemma_filled_first(pieces);
        assert(first[dot] == '.');
        assert forall|i: int| 0 <= i < dot implies #[trigger] first[i] != '.' by {
            assert(base.contains(base[i]));
        }
        text::lemma_next_char_at(first, '.', 0, dot);
        assert(first.take(dot) =~= base);
        assert(component_text(first) is None);
        assert(parts.take(1).drop_last() =~= Seq::<Seq<char>>::empty());
        assert(parts.take(1).last() == first);
        assert(joined_text(parts.take(1)) is None);
        lemma_joined_none(parts, 1);
    }
}

/// A ligature name resolves to the texts of its components in order, or to
/// nothing where one of them has none.
pub proof fn law_ligatures_join_their_components(parts: Seq<Seq<char>>)
    requires
        parts.len() > 1,
        bare_components(parts),
    ensures
        lookup_text(underscored(parts)) == looked_up(parts),
{
    let name = underscored(parts);
    lemma_underscored(parts);
    text::lemma_next_char_absent(name, '.', 0);
    lemma_underscore_is_no_word(name);
    assert(lookup_text(name) == joined_text(parts));
    lemma_looked_up(parts);
}

/// A suffixed variant of a ligature carries the ligature's text.
pub proof fn law_ligature_variants_carry_the_same_text(parts: Seq<Seq<char>>, suffix: Seq<char>)
    requires
        parts.len() > 1,
        bare_components(parts),
        !suffix.contains('_'),
    ensures
        lookup_text(underscored(parts) + seq!['.'] + suffix) == lookup_text(underscored(parts)),
{
    let base = underscored(parts);
    let name = base + seq!['.'] + suffix;
    let n = parts.len() as int;
    let tail = parts.last() + seq!['.'] + suffix;
    let styled = parts.drop_last().push(tail);
    law_ligatures_join_their_components(parts);
    lemma_underscored(parts);
    text::lemma_next_char_absent(base, '.', 0);
    lemma_underscore_is_no_word(base);
    lemma_suffixed(base, suffix);
    assert(parts[n - 1] == parts.last());
    assert(!tail.contains('_')) by {
        if tail.contains('_') {
            let i = choose|i: int| 0 <= i < tail.len() && tail[i] == '_';
            if i < parts.last().len() {
                assert(parts.last()[i] == '_');
            } else if i > parts.last().len() {
                assert(suffix[i - parts.last().len() - 1] == '_');
            }
        }
    }
    assert(styled.drop_last() =~= parts.drop_last());
    assert(styled.last() == tail);
    assert(name =~= underscored(styled)) by {
        assert(underscored(styled) == underscored(parts.drop_last()) + seq!['_'] + tail);
        assert(base == underscored(parts.drop_last()) + seq!['_'] + parts.last());
    }
    assert forall|i: int| 0 <= i < styled.len() implies (#[trigger] styled[i]).len() > 0
        && !styled[i].contains('_') by {
        if i < n - 1 {
            assert(styled[i] == parts[i]);
        }
    }
    lemma_split_underscored(styled);
    text::lemma_filled_whole(styled);
    lemma_suffixed(parts.last(), suffix);
    text::lemma_next_char_absent(parts.last(), '.', 0);
    assert(parts.last().take(parts.last().len() as int) =~= parts.last());
    assert(component_text(tail) == component_text(parts.last()));
    assert(joined_text(styled) == joined_text(parts));
    lemma_looked_up(parts);
}

proof fn lemma_one_component(name: Seq<char>)
    requires
        text::split(name, '_') == seq![name],
    ensures
        ligature_text(name) is None,
{
    let pieces = text::split(name, '_');
    assert(pieces.drop_last() =~= Seq::<Seq<char>>::empty());
    assert(text::filled(pieces.drop_last()).len() == 0);
    assert(text::filled(pieces).len() <= 1);
}

/// A bare name resolves to what it says on its own.
proof fn lemma_bare_lookup(name: Seq<char>)
    requires
        !name.contains('.'),
        !name.contains('_'),
    ensures
        lookup_text(name) == word_text(name),
        component_text(name) == word_text(name),
{
    text::lemma_next_char_absent(name, '.', 0);
    assert(name.take(name.len() as int) =~= name);
    text::lemma_split_whole(name, '_');
    lemma_one_component(name);
}

proof fn lemma_looked_up(parts: Seq<Seq<char>>)
    requires
        bare_components(parts),
    ensures
        looked_up(parts) == joined_text(parts),
    decreases parts.len(),
{
    if parts.len() > 0 {
        assert(parts.last() == parts[parts.len() - 1]);
        lemma_bare_lookup(parts.last());
        assert forall|i: int| 0 <= i < parts.drop_last().len() implies (
        #[trigger] parts.drop_last()[i]).len() > 0 && !parts.drop_last()[i].contains('_')
            && !parts.drop_last()[i].contains('.') by {
            assert(parts.drop_last()[i] == parts[i]);
        }
        lemma_looked_up(parts.drop_last());
    }
}

/// A name with a suffix says nothing on its own, and its base ends at the dot.
proof fn lemma_suffixed(base: Seq<char>, suffix: Seq<char>)
    requires
        base.len() > 0,
        !base.contains('.'),
    ensures
        ({
            let name = base + seq!['.'] + suffix;
            &&& text::next_char(name, '.', 0) == base.len()
            &&& name.take(base.len() as int) == base
            &&& exact_text(name) is None
            &&& uni_text(name) is None
            &&& coded_text(name) is None
        }),
{
    let name = base + seq!['.'] + suffix;
    let dot = base.len() as int;
    assert(name[dot] == '.');
    assert forall|i: int| 0 <= i < dot implies #[trigger] name[i] != '.' by {
        assert(base.contains(base[i]));
        assert(name[i] == base[i]);
    }
    text::lemma_next_char_at(name, '.', 0, dot);
    assert(name.take(dot) =~= base);
    lemma_no_word_with(name, dot);
}

/// A name that holds a character other than letters and digits after its first
/// is not listed, and is no code point and no number.
proof fn lemma_no_word_with(name: Seq<char>, at: int)
    requires
        0 < at < name.len(),
        name[at] == '.' || name[at] == '_',
    ensures
        exact_text(name) is None,
        uni_text(name) is None,
        coded_text(name) is None,
{
    if exact_text(name) is Some {
        lemma_listed_characters(name);
        assert(name.contains(name[at]));
    }
    if name.len() >= 7 && at >= 3 {
        assert(name.skip(3)[at - 3] == name[at]);
    }
    if name.len() >= 7 && at < 3 && name.take(3) == seq!['u', 'n', 'i'] {
        assert(name.take(3)[at] == name[at]);
    }
    if 5 <= name.len() {
        assert(name.skip(1)[at - 1] == name[at]);
    }
}

proof fn lemma_underscore_is_no_word(name: Seq<char>)
    requires
        exists|i: int| 0 < i < name.len() && name[i] == '_',
    ensures
        word_text(name) is None,
{
    let at = choose|i: int| 0 < i < name.len() && name[i] == '_';
    lemma_no_word_with(name, at);
}

/// The components joined: the joint holds no suffix, holds an underscore after
/// its first character, and splits into the components again.
proof fn lemma_underscored(parts: Seq<Seq<char>>)
    requires
        parts.len() > 1,
        bare_components(parts),
    ensures
        !underscored(parts).contains('.'),
        exists|i: int| 0 < i < underscored(parts).len() && underscored(parts)[i] == '_',
        text::filled(text::split(underscored(parts), '_')) == parts,
    decreases parts.len(),
{
    let front = underscored(parts.drop_last());
    let name = underscored(parts);
    let before = parts.drop_last();
    assert(parts.last() == parts[parts.len() - 1]);
    assert forall|i: int| 0 <= i < before.len() implies (#[trigger] before[i]).len() > 0
        && !before[i].contains('_') && !before[i].contains('.') by {
        assert(before[i] == parts[i]);
    }
    if parts.len() > 2 {
        lemma_underscored(before);
    } else {
        assert(before[0] == parts[0]);
    }
    assert(name[front.len() as int] == '_');
    assert(!name.contains('.')) by {
        if name.contains('.') {
            let i = choose|i: int| 0 <= i < name.len() && name[i] == '.';
            if i < front.len() {
                assert(front[i] == '.');
            } else if i > front.len() {
                assert(parts.last()[i - front.len() - 1] == '.');
            }
        }
    }
    lemma_split_underscored(parts);
    text::lemma_filled_whole(parts);
}

proof fn lemma_split_underscored(parts: Seq<Seq<char>>)
    requires
        parts.len() > 0,
        forall|i: int| 0 <= i < parts.len() ==> !(#[trigger] parts[i]).contains('_'),
    ensures
        text::split(underscored(parts), '_') == parts,
    decreases parts.len(),
{
    assert(parts.last() == parts[parts.len() - 1]);
    if parts.len() == 1 {
        text::lemma_split_whole(parts[0], '_');
        assert(parts =~= seq![parts[0]]);
    } else {
        let before = parts.drop_last();
        assert forall|i: int| 0 <= i < before.len() implies !(#[trigger] before[i]).contains(
            '_',
        ) by {
            assert(before[i] == parts[i]);
        }
        lemma_split_underscored(before);
        text::lemma_split_joined(underscored(before), '_', parts.last());
        assert(parts =~= before.push(parts.last()));
    }
}

proof fn lemma_opaque_characters(name: Seq<char>)
    requires
        opaque_name(name),
    ensures
        forall|i: int| 0 <= i < name.len() ==> #[trigger] name[i] != '.' && name[i] != '_',
{
    let prefixes: Seq<Seq<char>> = seq![
        seq!['c', 'i', 'd'],
        seq!['g', 'l', 'y', 'p', 'h'],
        seq!['i', 'n', 'd', 'e', 'x'],
        seq!['g'],
        seq![],
    ];
    assert(prefixes[4] =~= Seq::<char>::empty());
    assert forall|i: int| 0 <= i < name.len() implies #[trigger] name[i] != '.' && name[i]
        != '_' by {
        assert forall|k: int|
            0 <= k < 5 && numbered(name, #[trigger] prefixes[k]) implies name[i] != '.' && name[i]
            != '_' by {
            let p = prefixes[k];
            if i < p.len() {
                assert(name.take(p.len() as int)[i] == name[i]);
            }
        }
        assert(numbered(name, prefixes[0]) || numbered(name, prefixes[1]) || numbered(
            name,
            prefixes[2],
        ) || numbered(name, prefixes[3]) || numbered(name, prefixes[4]));
    }
}

proof fn lemma_opaque_is_not_uni(name: Seq<char>)
    requires
        opaque_name(name),
    ensures
        uni_text(name) is None,
{
    assert(name[0] != 'u') by {
        if numbered(name, seq!['c', 'i', 'd']) {
            assert(name.take(3)[0] == name[0]);
        } else if numbered(name, seq!['g', 'l', 'y', 'p', 'h']) {
            assert(name.take(5)[0] == name[0]);
        } else if numbered(name, seq!['i', 'n', 'd', 'e', 'x']) {
            assert(name.take(5)[0] == name[0]);
        } else if numbered(name, seq!['g']) {
            assert(name.take(1)[0] == name[0]);
        }
    }
    if name.len() >= 7 && name.take(3) == seq!['u', 'n', 'i'] {
        assert(name.take(3)[0] == name[0]);
    }
}

/// Whether the entries of a list can stand in it, each after a name, and after
/// those before it.
spec fn ordered(list: Seq<Entry>, last: Seq<u8>) -> bool {
    &&& forall|i: int|
        0 <= i < list.len() ==> listable((#[trigger] list[i]).name) && before(last, list[i].name)
    &&& forall|i: int, j: int|
        0 <= i < j < list.len() ==> before((#[trigger] list[i]).name, (#[trigger] list[j]).name)
}

proof fn lemma_before_is_transitive(a: Seq<u8>, b: Seq<u8>, c: Seq<u8>)
    requires
        before(a, b),
        before(b, c),
    ensures
        before(a, c),
    decreases a.len(),
{
    if a.len() > 0 && a[0] == b[0] && b[0] == c[0] {
        lemma_before_is_transitive(a.skip(1), b.skip(1), c.skip(1));
    }
}

proof fn lemma_before_is_strict(a: Seq<u8>, b: Seq<u8>)
    requires
        before(a, b),
    ensures
        a != b,
        !before(b, a),
    decreases a.len(),
{
    if a.len() > 0 && a[0] == b[0] {
        lemma_before_is_strict(a.skip(1), b.skip(1));
    }
}

proof fn lemma_in_order(list: Seq<Entry>, last: Seq<u8>)
    ensures
        ordered(in_order(list, last), last),
    decreases list.len(),
{
    if list.len() > 0 {
        let e = list[0];
        let rest = list.skip(1);
        if listable(e.name) && before(last, e.name) {
            let more = in_order(rest, e.name);
            let all = seq![e] + more;
            lemma_in_order(rest, e.name);
            assert forall|i: int| 0 <= i < all.len() implies listable((#[trigger] all[i]).name)
                && before(last, all[i].name) by {
                if i > 0 {
                    assert(all[i] == more[i - 1]);
                    lemma_before_is_transitive(last, e.name, more[i - 1].name);
                }
            }
            assert forall|i: int, j: int| 0 <= i < j < all.len() implies before(
                (#[trigger] all[i]).name,
                (#[trigger] all[j]).name,
            ) by {
                assert(all[j] == more[j - 1]);
                if i > 0 {
                    assert(all[i] == more[i - 1]);
                }
            }
        } else {
            lemma_in_order(rest, last);
        }
    }
}

proof fn lemma_text_among(list: Seq<Entry>, name: Seq<u8>)
    ensures
        match text_among(list, name) {
            Some(t) => exists|i: int|
                0 <= i < list.len() && (#[trigger] list[i]).name == name && list[i].text == t,
            None => forall|i: int| 0 <= i < list.len() ==> (#[trigger] list[i]).name != name,
        },
    decreases list.len(),
{
    if list.len() > 0 && list[0].name != name {
        let rest = list.skip(1);
        lemma_text_among(rest, name);
        match text_among(rest, name) {
            Some(t) => {
                let i = choose|i: int|
                    0 <= i < rest.len() && (#[trigger] rest[i]).name == name && rest[i].text == t;
                assert(list[i + 1] == rest[i]);
            },
            None => {
                assert forall|i: int| 0 <= i < list.len() implies (#[trigger] list[i]).name
                    != name by {
                    if i > 0 {
                        assert(list[i] == rest[i - 1]);
                    }
                }
            },
        }
    }
}

proof fn lemma_name_among(list: Seq<Entry>, c: char)
    ensures
        match name_among(list, c) {
            Some(n) => exists|i: int|
                {
                    &&& 0 <= i < list.len()
                    &&& n == ascii_text((#[trigger] list[i]).name)
                    &&& list[i].text == seq![c]
                    &&& forall|j: int| 0 <= j < i ==> (#[trigger] list[j]).text != seq![c]
                },
            None => forall|i: int| 0 <= i < list.len() ==> (#[trigger] list[i]).text != seq![c],
        },
    decreases list.len(),
{
    if list.len() > 0 && list[0].text != seq![c] {
        let rest = list.skip(1);
        lemma_name_among(rest, c);
        match name_among(rest, c) {
            Some(n) => {
                let i = choose|i: int|
                    {
                        &&& 0 <= i < rest.len()
                        &&& n == ascii_text((#[trigger] rest[i]).name)
                        &&& rest[i].text == seq![c]
                        &&& forall|j: int| 0 <= j < i ==> (#[trigger] rest[j]).text != seq![c]
                    };
                assert(list[i + 1] == rest[i]);
                assert forall|j: int| 0 <= j < i + 1 implies (#[trigger] list[j]).text != seq![
                    c,
                ] by {
                    if j > 0 {
                        assert(list[j] == rest[j - 1]);
                    }
                }
            },
            None => {
                assert forall|i: int| 0 <= i < list.len() implies (#[trigger] list[i]).text
                    != seq![c] by {
                    if i > 0 {
                        assert(list[i] == rest[i - 1]);
                    }
                }
            },
        }
    } else if list.len() > 0 {
        assert(ascii_text(list[0].name) == name_among(list, c)->0);
    }
}

/// ASCII bytes are the encoding of their characters.
proof fn lemma_ascii_encoding(bytes: Seq<u8>)
    requires
        forall|i: int| 0 <= i < bytes.len() ==> letter_or_digit(#[trigger] bytes[i]),
    ensures
        vstd::utf8::encode_utf8(ascii_text(bytes)) == bytes,
{
    let name = ascii_text(bytes);
    assert(vstd::utf8::is_ascii_chars(name)) by {
        assert forall|k: int| 0 <= k < name.len() implies 0 <= #[trigger] name[k] as nat && (
        name[k] as nat) < 128 by {
            assert(letter_or_digit(bytes[k]));
        }
    }
    vstd::utf8::is_ascii_chars_encode_utf8(name);
    assert forall|k: int| 0 <= k < bytes.len() implies vstd::utf8::encode_utf8(name)[k]
        == bytes[k] by {
        assert(name[k] as u8 == vstd::utf8::encode_utf8(name)[k]);
        assert(letter_or_digit(bytes[k]));
    }
    assert(vstd::utf8::encode_utf8(name) =~= bytes);
}

/// A listed name is the characters of a name of the list.
proof fn lemma_listed(name: Seq<char>)
    requires
        exact_text(name) is Some,
    ensures
        name.len() > 0,
        listable(vstd::utf8::encode_utf8(name)),
        name == ascii_text(vstd::utf8::encode_utf8(name)),
{
    let list = glyph_list();
    let bytes = vstd::utf8::encode_utf8(name);
    lemma_in_order(entries_from(0), Seq::empty());
    lemma_text_among(list, bytes);
    let t = exact_text(name)->0;
    let i = choose|i: int|
        0 <= i < list.len() && (#[trigger] list[i]).name == bytes && list[i].text == t;
    assert(listable(list[i].name));
    lemma_ascii_encoding(bytes);
    vstd::utf8::encode_utf8_decode_utf8(name);
    vstd::utf8::encode_utf8_decode_utf8(ascii_text(bytes));
    assert(vstd::utf8::encode_utf8(Seq::<char>::empty()) =~= Seq::<u8>::empty());
}

/// A listed name holds neither a dot nor an underscore, and carries information.
proof fn lemma_listed_characters(name: Seq<char>)
    requires
        exact_text(name) is Some,
    ensures
        !name.contains('.'),
        !name.contains('_'),
        !opaque_name(name),
{
    let bytes = vstd::utf8::encode_utf8(name);
    lemma_listed(name);
    assert forall|i: int| 0 <= i < name.len() implies #[trigger] name[i] != '.' && name[i]
        != '_' by {
        assert(letter_or_digit(bytes[i]));
        assert(name[i] == bytes[i] as char);
    }
}

/// The names of the glyph list hold letters and digits, and none has the form of
/// the names that carry no information. The list is sorted by name, and no name
/// is repeated.
pub proof fn law_the_list_is_in_order()
    ensures
        forall|i: int|
            0 <= i < glyph_list().len() ==> listable((#[trigger] glyph_list()[i]).name),
        forall|i: int, j: int|
            0 <= i < j < glyph_list().len() ==> before(
                (#[trigger] glyph_list()[i]).name,
                (#[trigger] glyph_list()[j]).name,
            ) && glyph_list()[i].name != glyph_list()[j].name,
{
    let list = glyph_list();
    lemma_in_order(entries_from(0), Seq::empty());
    assert forall|i: int, j: int| 0 <= i < j < list.len() implies before(
        (#[trigger] list[i]).name,
        (#[trigger] list[j]).name,
    ) && list[i].name != list[j].name by {
        lemma_before_is_strict(list[i].name, list[j].name);
    }
}

/// A name has a text where it is the name of an entry, and then that entry's.
pub proof fn law_the_list_gives_the_text(i: int, name: Seq<char>)
    requires
        0 <= i < glyph_list().len(),
    ensures
        exact_text(ascii_text(glyph_list()[i].name)) == Some(glyph_list()[i].text),
        exact_text(name) is Some ==> exists|j: int|
            0 <= j < glyph_list().len() && (#[trigger] glyph_list()[j]).name
                == vstd::utf8::encode_utf8(name) && exact_text(name) == Some(
                glyph_list()[j].text,
            ),
{
    let list = glyph_list();
    let bytes = list[i].name;
    law_the_list_is_in_order();
    assert(listable(list[i].name));
    lemma_ascii_encoding(bytes);
    lemma_text_among(list, bytes);
    match text_among(list, bytes) {
        Some(t) => {
            let j = choose|j: int|
                0 <= j < list.len() && (#[trigger] list[j]).name == bytes && list[j].text == t;
            if j < i {
                assert(list[j].name != list[i].name);
            }
            if i < j {
                assert(list[i].name != list[j].name);
            }
        },
        None => {
            assert(list[i].name != bytes);
        },
    }
    lemma_text_among(list, vstd::utf8::encode_utf8(name));
}

/// The name of a character is listed with exactly that character, and no other
/// name so listed comes before it: the first name wins. A character has no name
/// where none is listed with exactly it.
pub proof fn law_names_invert_the_list(c: char, other: Seq<char>)
    ensures
        match name_text(c) {
            Some(n) => {
                &&& exact_text(n) == Some(seq![c])
                &&& exact_text(other) == Some(seq![c]) ==> !before(
                    vstd::utf8::encode_utf8(other),
                    vstd::utf8::encode_utf8(n),
                )
            },
            None => exact_text(other) != Some(seq![c]),
        },
{
    let list = glyph_list();
    let key = vstd::utf8::encode_utf8(other);
    law_the_list_is_in_order();
    lemma_name_among(list, c);
    lemma_text_among(list, key);
    match name_text(c) {
        Some(n) => {
            let i = choose|i: int|
                {
                    &&& 0 <= i < list.len()
                    &&& n == ascii_text((#[trigger] list[i]).name)
                    &&& list[i].text == seq![c]
                    &&& forall|j: int| 0 <= j < i ==> (#[trigger] list[j]).text != seq![c]
                };
            law_the_list_gives_the_text(i, other);
            assert(listable(list[i].name));
            lemma_ascii_encoding(list[i].name);
            if exact_text(other) == Some(seq![c]) {
                let j = choose|j: int|
                    0 <= j < list.len() && (#[trigger] list[j]).name == key && list[j].text
                        == seq![c];
                if j < i {
                    assert(list[j].text != seq![c]);
                }
                if i < j {
                    assert(before(list[i].name, list[j].name));
                    lemma_before_is_strict(list[i].name, list[j].name);
                } else {
                    if before(key, key) {
                        lemma_before_is_strict(key, key);
                    }
                }
            }
        },
        None => {
            if exact_text(other) == Some(seq![c]) {
                let j = choose|j: int|
                    0 <= j < list.len() && (#[trigger] list[j]).name == key && list[j].text
                        == seq![c];
                assert(list[j].text != seq![c]);
            }
        },
    }
}

/// The UTF-16 code units of a character.
pub open spec fn units_of(c: char) -> Seq<int> {
    if (c as int) < 0x10000 {
        seq![c as int]
    } else {
        seq![0xD800 + (c as int - 0x10000) / 0x400, 0xDC00 + (c as int - 0x10000) % 0x400]
    }
}

/// The UTF-16 code units of a text.
pub open spec fn utf16_of(t: Seq<char>) -> Seq<int>
    decreases t.len(),
{
    if t.len() == 0 {
        Seq::empty()
    } else {
        units_of(t[0]) + utf16_of(t.skip(1))
    }
}

/// A text without replacement characters reads back from its UTF-16 code units,
/// and code units that read as a text are those of that text.
pub proof fn law_utf16_reads_back(t: Seq<char>, units: Seq<int>)
    requires
        forall|i: int| 0 <= i < units.len() ==> 0 <= #[trigger] units[i] <= 0xFFFF,
    ensures
        !t.contains('\u{FFFD}') ==> utf16_text(utf16_of(t), 0) == Some(t),
        utf16_text(units, 0) == Some(t) ==> utf16_of(t) == units && !t.contains('\u{FFFD}'),
{
    assert(utf16_of(t).skip(0) =~= utf16_of(t));
    if !t.contains('\u{FFFD}') {
        lemma_utf16_read(utf16_of(t), 0, t);
    }
    assert(units.skip(0) =~= units);
    if utf16_text(units, 0) == Some(t) {
        lemma_utf16_written(units, 0, t);
    }
}

proof fn lemma_units_of(c: char)
    ensures
        0 <= c as int <= 0x10FFFF,
        (c as int) as char == c,
        (c as int) < 0x10000 ==> !(0xD800 <= c as int <= 0xDFFF),
        c as int >= 0x10000 ==> {
            let n = c as int - 0x10000;
            &&& 0 <= n / 0x400 <= 0x3FF && 0 <= n % 0x400 <= 0x3FF
            &&& 0x10000 + n / 0x400 * 0x400 + n % 0x400 == c as int
        },
{
    let x = c as u32;
    assert(x <= 0x10FFFF);
    assert(x < 0xD800 || x > 0xDFFF);
}

proof fn lemma_utf16_read(units: Seq<int>, at: int, t: Seq<char>)
    requires
        0 <= at <= units.len(),
        units.skip(at) == utf16_of(t),
        !t.contains('\u{FFFD}'),
    ensures
        utf16_text(units, at) == Some(t),
    decreases t.len(),
{
    if t.len() == 0 {
        assert(units.skip(at).len() == 0);
        assert(t =~= Seq::empty());
    } else {
        let c = t[0];
        let rest = t.skip(1);
        let own = units_of(c);
        lemma_units_of(c);
        assert(t.contains(c));
        assert forall|x: char| rest.contains(x) implies t.contains(x) by {
            let q = choose|q: int| 0 <= q < rest.len() && rest[q] == x;
            assert(t[q + 1] == x);
        }
        assert(units.skip(at)[0] == own[0]);
        assert(units[at] == own[0]);
        if own.len() == 2 {
            assert(units.skip(at)[1] == own[1]);
            assert(units[at + 1] == own[1]);
        }
        let next = at + own.len();
        assert(units.skip(next) =~= utf16_of(rest)) by {
            assert forall|i: int| 0 <= i < units.skip(next).len() implies units.skip(next)[i]
                == utf16_of(rest)[i] by {
                assert(units.skip(at)[i + own.len()] == utf16_of(t)[i + own.len()]);
            }
        }
        lemma_utf16_read(units, next, rest);
        if own.len() == 2 {
            assert((0x10000 + (units[at] - 0xD800) * 0x400 + (units[at + 1] - 0xDC00)) as char == c);
        } else {
            assert(own == seq![c as int]);
            assert(own[0] == c as int);
            assert(units[at] == c as int);
            assert(units[at] as char == c);
        }
        assert(seq![c] + rest =~= t);
    }
}

proof fn lemma_utf16_written(units: Seq<int>, at: int, t: Seq<char>)
    requires
        0 <= at <= units.len(),
        forall|i: int| 0 <= i < units.len() ==> 0 <= #[trigger] units[i] <= 0xFFFF,
        utf16_text(units, at) == Some(t),
    ensures
        utf16_of(t) == units.skip(at),
        !t.contains('\u{FFFD}'),
    decreases units.len() - at,
{
    if at == units.len() {
        assert(utf16_of(t) =~= units.skip(at));
    } else {
        let pair = 0xD800 <= units[at] <= 0xDBFF;
        let step: int = if pair {
            2
        } else {
            1
        };
        let rest = utf16_text(units, at + step)->0;
        lemma_utf16_written(units, at + step, rest);
        assert(t.skip(1) =~= rest);
        assert(utf16_of(t) =~= units.skip(at));
        if t.contains('\u{FFFD}') {
            let q = choose|q: int| 0 <= q < t.len() && t[q] == '\u{FFFD}';
            if q > 0 {
                assert(rest[q - 1] == '\u{FFFD}');
            }
        }
    }
}

/// The hexadecimal digit of a value.
pub open spec fn hex_digit_of(d: int) -> char {
    if d < 10 {
        (0x30 + d) as char
    } else {
        (0x41 + d - 10) as char
    }
}

/// A number in so many hexadecimal digits.
pub open spec fn hex_digits(n: int, width: nat) -> Seq<char>
    decreases width,
{
    if width == 0 {
        Seq::empty()
    } else {
        hex_digits(n / 16, (width - 1) as nat).push(hex_digit_of(n % 16))
    }
}

/// How many numbers so many hexadecimal digits can write.
pub open spec fn hex_limit(width: nat) -> int
    decreases width,
{
    if width == 0 {
        1
    } else {
        16 * hex_limit((width - 1) as nat)
    }
}

/// A number that is written in hexadecimal digits reads back as it.
pub proof fn law_hexadecimal_reads_back(n: int, width: nat)
    requires
        0 <= n < hex_limit(width),
    ensures
        hex_digits(n, width).len() == width,
        all_hex(hex_digits(n, width)),
        hex_number(hex_digits(n, width)) == n,
    decreases width,
{
    if width > 0 {
        law_hexadecimal_reads_back(n / 16, (width - 1) as nat);
        let front = hex_digits(n / 16, (width - 1) as nat);
        let s = hex_digits(n, width);
        assert(s.drop_last() =~= front);
        assert forall|i: int| 0 <= i < s.len() implies hex_char(#[trigger] s[i]) by {
            if i < front.len() {
                assert(s[i] == front[i]);
            }
        }
    }
}

/// Code units in four hexadecimal digits each.
pub open spec fn hex_text(units: Seq<int>) -> Seq<char>
    decreases units.len(),
{
    if units.len() == 0 {
        Seq::empty()
    } else {
        hex_text(units.drop_last()) + hex_digits(units.last(), 4)
    }
}

proof fn lemma_hex_text(units: Seq<int>)
    requires
        forall|i: int| 0 <= i < units.len() ==> 0 <= #[trigger] units[i] <= 0xFFFF,
    ensures
        hex_text(units).len() == 4 * units.len(),
        all_hex(hex_text(units)),
        forall|i: int|
            0 <= i < units.len() ==> hex_text(units).subrange(4 * i, 4 * i + 4) == hex_digits(
                #[trigger] units[i],
                4,
            ),
    decreases units.len(),
{
    if units.len() > 0 {
        let front = units.drop_last();
        let last = hex_digits(units.last(), 4);
        let s = hex_text(units);
        lemma_hex_text(front);
        reveal_with_fuel(hex_limit, 5);
        law_hexadecimal_reads_back(units.last(), 4);
        assert forall|i: int| 0 <= i < s.len() implies hex_char(#[trigger] s[i]) by {
            if i < hex_text(front).len() {
                assert(s[i] == hex_text(front)[i]);
            } else {
                assert(s[i] == last[i - hex_text(front).len()]);
            }
        }
        assert forall|i: int| 0 <= i < units.len() implies s.subrange(4 * i, 4 * i + 4)
            == hex_digits(#[trigger] units[i], 4) by {
            if i < front.len() {
                assert(front[i] == units[i]);
                assert(s.subrange(4 * i, 4 * i + 4) =~= hex_text(front).subrange(4 * i, 4 * i + 4));
            } else {
                assert(s.subrange(4 * i, 4 * i + 4) =~= last);
            }
        }
    }
}

proof fn lemma_units_held(t: Seq<char>)
    ensures
        forall|i: int|
            0 <= i < utf16_of(t).len() ==> 0 <= #[trigger] utf16_of(t)[i] <= 0xFFFF,
        t.len() <= utf16_of(t).len(),
    decreases t.len(),
{
    if t.len() > 0 {
        lemma_units_held(t.skip(1));
        lemma_units_of(t[0]);
        let own = units_of(t[0]);
        let rest = utf16_of(t.skip(1));
        assert forall|i: int| 0 <= i < utf16_of(t).len() implies 0 <= #[trigger] utf16_of(t)[i]
            <= 0xFFFF by {
            if i < own.len() {
                assert(utf16_of(t)[i] == own[i]);
                if own.len() == 1 {
                    assert(own[0] == t[0] as int);
                } else {
                    assert(own[0] == 0xD800 + (t[0] as int - 0x10000) / 0x400);
                    assert(own[1] == 0xDC00 + (t[0] as int - 0x10000) % 0x400);
                }
            } else {
                assert(utf16_of(t)[i] == rest[i - own.len()]);
            }
        }
    }
}

/// A `uni` name spells the text whose UTF-16 code units it writes.
pub proof fn law_a_uni_name_spells_its_text(t: Seq<char>)
    requires
        t.len() > 0,
        !t.contains('\u{FFFD}'),
    ensures
        uni_text(seq!['u', 'n', 'i'] + hex_text(utf16_of(t))) == Some(t),
{
    let units = utf16_of(t);
    let digits = hex_text(units);
    let name = seq!['u', 'n', 'i'] + digits;
    lemma_units_held(t);
    lemma_hex_text(units);
    assert(name.take(3) =~= seq!['u', 'n', 'i']);
    assert(name.skip(3) =~= digits);
    assert(hex_units(digits) =~= units) by {
        assert forall|i: int| 0 <= i < units.len() implies hex_units(digits)[i] == units[i] by {
            assert(digits.subrange(4 * i, 4 * i + 4) == hex_digits(units[i], 4));
            reveal_with_fuel(hex_limit, 5);
            law_hexadecimal_reads_back(units[i], 4);
        }
    }
    law_utf16_reads_back(t, units);
}

/// A `u` name of four to six digits spells the character that it writes.
pub proof fn law_a_u_name_spells_its_character(c: char, width: nat)
    requires
        4 <= width <= 6,
        (c as int) < hex_limit(width),
    ensures
        uni_text(seq!['u'] + hex_digits(c as int, width)) == Some(seq![c]),
{
    let digits = hex_digits(c as int, width);
    let name = seq!['u'] + digits;
    law_hexadecimal_reads_back(c as int, width);
    assert(name.skip(1) =~= digits);
    assert(hex_char(digits[0]));
    assert(name.take(3)[1] == digits[0]);
    assert(seq!['u', 'n', 'i'][1] == 'n');
}

/// A name of a letter and two or three digits, where it spells anything, spells
/// the character with that number.
pub proof fn law_a_numbered_name_spells_its_character(name: Seq<char>)
    ensures
        match coded_text(name) {
            Some(t) => {
                &&& 3 <= name.len() <= 4
                &&& t.len() == 1 && t[0] as int == text::number_of(name.skip(1))
                &&& 'A' <= name[0] <= 'Z' || 'a' <= name[0] <= 'z'
            },
            None => {
                ||| name.len() < 3 || name.len() > 4
                ||| !('A' <= name[0] <= 'Z' || 'a' <= name[0] <= 'z')
                ||| name[0] == 'u' || name[0] == 'g'
                ||| exists|i: int|
                    1 <= i < name.len() && !('0' <= #[trigger] name[i] <= '9')
                ||| text::number_of(name.skip(1)) > 127
            },
        },
{
    reveal_with_fuel(text::number_of, 4);
    if 3 <= name.len() <= 4 {
        let d = name.skip(1);
        assert(d.last() == name[name.len() - 1]);
        assert(d.drop_last().last() == name[name.len() - 2]);
        if name.len() == 4 {
            assert(d.drop_last().drop_last().last() == name[1]);
        }
        if ('A' <= name[0] <= 'Z' || 'a' <= name[0] <= 'z') && name[0] != 'u' && name[0] != 'g'
            && forall|i: int| 1 <= i < name.len() ==> '0' <= #[trigger] name[i] <= '9' {
            assert(name[1] <= '9');
            if numbered(name, seq!['c', 'i', 'd']) {
                assert(name.take(3)[1] == name[1]);
                assert(false);
            }
            if numbered(name, seq![]) {
                assert('0' <= name[0] <= '9');
            }
            if numbered(name, seq!['g']) {
                assert(name.take(1)[0] == name[0]);
            }
            assert(!opaque_name(name));
        }
    }
}

/// Four hexadecimal digits stand for the character with that number.
pub proof fn law_a_code_point_is_read_from_its_digits(s: Seq<u8>, at: int, c: char)
    requires
        0 <= at,
        at + 4 <= s.len(),
        (c as int) < 0x10000,
        ascii_text(s.subrange(at, at + 4)) == hex_digits(c as int, 4),
    ensures
        code_point_at(s, at) == c,
{
    reveal_with_fuel(hex_digits, 5);
    let d = hex_digits(c as int, 4);
    let b = ascii_text(s.subrange(at, at + 4));
    let n = c as int;
    assert(d[0] == b[0] && d[1] == b[1] && d[2] == b[2] && d[3] == b[3]);
    assert(d[3] == hex_digit_of(n % 16));
    assert(d[2] == hex_digit_of(n / 16 % 16));
    assert(d[1] == hex_digit_of(n / 16 / 16 % 16));
    assert(d[0] == hex_digit_of(n / 16 / 16 / 16 % 16));
    assert(hex_value(s[at]) == n / 16 / 16 / 16 % 16);
    assert(hex_value(s[at + 1]) == n / 16 / 16 % 16);
    assert(hex_value(s[at + 2]) == n / 16 % 16);
    assert(hex_value(s[at + 3]) == n % 16);
}

/// The first byte of a value from a position on is where it stands.
pub proof fn lemma_next_byte_at(s: Seq<u8>, b: u8, from: int, at: int)
    requires
        0 <= from <= at <= s.len(),
        at < s.len() ==> s[at] == b,
        forall|i: int| from <= i < at ==> #[trigger] s[i] != b,
    ensures
        next_byte(s, b, from) == at,
    decreases at - from,
{
    if from < at {
        lemma_next_byte_at(s, b, from + 1, at);
    }
}

} // verus!
