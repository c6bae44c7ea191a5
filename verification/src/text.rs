//! Strings as sequences of characters.

use vstd::prelude::*;

verus! {

/// `String::push` appends one character at the end of the string.
pub assume_specification[ String::push ](s: &mut String, c: char)
    ensures
        final(s)@ == old(s)@.push(c),
;

/// `str` equality compares the characters.
pub assume_specification[ <str as PartialEq>::eq ](a: &str, b: &str) -> (r: bool)
    ensures
        r == (a@ == b@),
;

/// Whether two strings hold the same characters.
pub fn same(a: &str, b: &str) -> (r: bool)
    ensures
        r == (a@ == b@),
{
    *a == *b
}

/// A string with the same characters.
pub fn copy(s: &str) -> (r: String)
    ensures
        r@ == s@,
{
    s.to_owned()
}

/// The character with the given number, for a Unicode scalar value.
pub open spec fn scalar_value(i: int) -> Option<char> {
    if 0 <= i <= 0x10FFFF && !(0xD800 <= i <= 0xDFFF) {
        Some(i as char)
    } else {
        None
    }
}

/// `char::from_u32` gives the character of a Unicode scalar value, and nothing
/// for a surrogate or a value past the last code point.
pub assume_specification[ char::from_u32 ](i: u32) -> (r: Option<char>)
    ensures
        r == scalar_value(i as int),
;

/// The text of an optional string.
pub open spec fn view_opt(s: Option<String>) -> Option<Seq<char>> {
    match s {
        Some(s) => Some(s@),
        None => None,
    }
}

/// The texts of a list of character vectors.
pub open spec fn texts(v: Seq<Vec<char>>) -> Seq<Seq<char>> {
    Seq::new(v.len(), |i: int| v[i]@)
}

/// The characters of a string, in order.
pub fn chars_of(s: &str) -> (r: Vec<char>)
    ensures
        r@ == s@,
{
    let mut out: Vec<char> = Vec::new();
    for c in it: s.chars()
        invariant
            out@ == it.seq().take(it.index() as int),
            it.seq() == s@,
    {
        out.push(c);
        assert(it.seq().take(it.index() + 1) =~= it.seq().take(it.index() as int).push(c));
    }
    assert(s@.take(s@.len() as int) =~= s@);
    out
}

/// The string made of the given characters.
pub fn string_of(chars: &Vec<char>) -> (r: String)
    ensures
        r@ == chars@,
{
    let mut out = String::new();
    let mut i: usize = 0;
    while i < chars.len()
        invariant
            i <= chars.len(),
            out@ == chars@.take(i as int),
        decreases chars.len() - i,
    {
        out.push(chars[i]);
        i += 1;
        assert(chars@.take(i as int) =~= chars@.take(i - 1).push(chars@[i - 1]));
    }
    assert(chars@.take(i as int) =~= chars@);
    out
}

/// The first position from `from` on that holds `c`, or the length.
pub open spec fn next_char(s: Seq<char>, c: char, from: int) -> int
    decreases s.len() - from,
{
    if from < 0 || from >= s.len() {
        s.len() as int
    } else if s[from] == c {
        from
    } else {
        next_char(s, c, from + 1)
    }
}

/// The first position from `from` on that holds `c`, or the length.
pub fn find_char(s: &Vec<char>, c: char, from: usize) -> (r: usize)
    requires
        from <= s@.len(),
    ensures
        r == next_char(s@, c, from as int),
        from <= r <= s@.len(),
        r < s@.len() ==> s@[r as int] == c,
        forall|i: int| from <= i < r ==> #[trigger] s@[i] != c,
{
    let mut i: usize = from;
    while i < s.len() && s[i] != c
        invariant
            from <= i <= s@.len(),
            next_char(s@, c, from as int) == next_char(s@, c, i as int),
            forall|j: int| from <= j < i ==> #[trigger] s@[j] != c,
        decreases s@.len() - i,
    {
        i += 1;
    }
    i
}

/// The characters from one position up to another.
pub fn slice(s: &Vec<char>, from: usize, to: usize) -> (r: Vec<char>)
    requires
        from <= to <= s@.len(),
    ensures
        r@ == s@.subrange(from as int, to as int),
{
    let mut out: Vec<char> = Vec::new();
    let mut i: usize = from;
    while i < to
        invariant
            from <= i <= to <= s@.len(),
            out@ == s@.subrange(from as int, i as int),
        decreases to - i,
    {
        out.push(s[i]);
        i += 1;
        assert(out@ =~= s@.subrange(from as int, i as int));
    }
    out
}

/// The pieces of a text between separators, empty ones too.
pub open spec fn split(s: Seq<char>, sep: char) -> Seq<Seq<char>>
    decreases s.len(),
{
    if s.len() == 0 {
        seq![Seq::empty()]
    } else {
        let front = split(s.drop_last(), sep);
        if s.last() == sep {
            front.push(Seq::empty())
        } else {
            front.drop_last().push(front.last().push(s.last()))
        }
    }
}

/// The pieces that hold something.
pub open spec fn filled(pieces: Seq<Seq<char>>) -> Seq<Seq<char>>
    decreases pieces.len(),
{
    if pieces.len() == 0 {
        Seq::empty()
    } else if pieces.last().len() == 0 {
        filled(pieces.drop_last())
    } else {
        filled(pieces.drop_last()).push(pieces.last())
    }
}

/// A character that a text does not hold from a position on is found at its end.
pub proof fn lemma_next_char_absent(s: Seq<char>, c: char, from: int)
    requires
        0 <= from <= s.len(),
        !s.contains(c),
    ensures
        next_char(s, c, from) == s.len(),
    decreases s.len() - from,
{
    if from < s.len() {
        assert(s.contains(s[from]));
        lemma_next_char_absent(s, c, from + 1);
    }
}

/// A character is found where it first stands.
pub proof fn lemma_next_char_at(s: Seq<char>, c: char, from: int, at: int)
    requires
        0 <= from <= at < s.len(),
        s[at] == c,
        forall|i: int| from <= i < at ==> #[trigger] s[i] != c,
    ensures
        next_char(s, c, from) == at,
    decreases at - from,
{
    if from < at {
        lemma_next_char_at(s, c, from + 1, at);
    }
}

/// A character that does not stand before a position is not found before it.
pub proof fn lemma_next_char_after(s: Seq<char>, c: char, from: int, at: int)
    requires
        0 <= from <= at <= s.len(),
        forall|i: int| from <= i < at ==> #[trigger] s[i] != c,
    ensures
        at <= next_char(s, c, from) <= s.len(),
    decreases s.len() - from,
{
    if from < s.len() && s[from] != c {
        lemma_next_char_after(
            s,
            c,
            from + 1,
            if at > from {
                at
            } else {
                from + 1
            },
        );
    }
}

/// A text without separators is its only piece.
pub proof fn lemma_split_whole(s: Seq<char>, sep: char)
    requires
        !s.contains(sep),
    ensures
        split(s, sep) == seq![s],
    decreases s.len(),
{
    if s.len() > 0 {
        assert(s.contains(s.last()));
        assert(!s.drop_last().contains(sep)) by {
            if s.drop_last().contains(sep) {
                let i = choose|i: int| 0 <= i < s.len() - 1 && s.drop_last()[i] == sep;
                assert(s[i] == sep);
            }
        }
        lemma_split_whole(s.drop_last(), sep);
        assert(s.drop_last().push(s.last()) =~= s);
        assert(split(s, sep) =~= seq![s]);
    } else {
        assert(s =~= Seq::<char>::empty());
    }
}

/// What follows the last separator is the last piece.
pub proof fn lemma_split_joined(front: Seq<char>, sep: char, last: Seq<char>)
    requires
        !last.contains(sep),
    ensures
        split(front + seq![sep] + last, sep) == split(front, sep).push(last),
    decreases last.len(),
{
    let s = front + seq![sep] + last;
    if last.len() == 0 {
        assert(s.drop_last() =~= front);
        assert(last =~= Seq::<char>::empty());
    } else {
        assert(last.contains(last.last()));
        assert(s.last() == last.last());
        assert(s.drop_last() =~= front + seq![sep] + last.drop_last());
        assert(!last.drop_last().contains(sep)) by {
            if last.drop_last().contains(sep) {
                let i = choose|i: int| 0 <= i < last.len() - 1 && last.drop_last()[i] == sep;
                assert(last[i] == sep);
            }
        }
        lemma_split_joined(front, sep, last.drop_last());
        assert(last.drop_last().push(last.last()) =~= last);
        assert(split(s, sep) =~= split(front, sep).push(last));
    }
}

/// The first piece of a text ends at its first separator.
pub proof fn lemma_split_first(s: Seq<char>, sep: char)
    ensures
        split(s, sep).len() > 0,
        split(s, sep)[0] == s.take(next_char(s, sep, 0)),
        0 <= next_char(s, sep, 0) <= s.len(),
    decreases s.len(),
{
    lemma_next_char_after(s, sep, 0, 0);
    if s.len() == 0 {
        assert(s.take(0) =~= Seq::<char>::empty());
    } else {
        let front = s.drop_last();
        lemma_split_first(front, sep);
        let cut = next_char(front, sep, 0);
        if cut < front.len() {
            lemma_next_char_found(front, sep, 0);
            assert(s[cut] == front[cut]);
            assert forall|i: int| 0 <= i < cut implies #[trigger] s[i] != sep by {
                assert(front[i] != sep);
            }
            lemma_next_char_at(s, sep, 0, cut);
            assert(s.take(cut) =~= front.take(cut));
            if split(front, sep).len() == 1 {
                lemma_split_one(front, sep);
                assert(front.contains(front[cut]));
            }
        } else {
            lemma_next_char_found(front, sep, 0);
            assert forall|i: int| 0 <= i < front.len() implies #[trigger] s[i] != sep by {
                assert(front[i] != sep);
            }
            assert(!front.contains(sep));
            lemma_split_whole(front, sep);
            if s.last() == sep {
                lemma_next_char_at(s, sep, 0, front.len() as int);
                assert(s.take(front.len() as int) =~= front);
            } else {
                assert(!s.contains(sep));
                lemma_next_char_absent(s, sep, 0);
                lemma_split_whole(s, sep);
                assert(s.take(s.len() as int) =~= s);
            }
        }
    }
}

proof fn lemma_next_char_found(s: Seq<char>, c: char, from: int)
    requires
        0 <= from <= s.len(),
    ensures
        from <= next_char(s, c, from) <= s.len(),
        forall|i: int| from <= i < next_char(s, c, from) ==> #[trigger] s[i] != c,
        next_char(s, c, from) < s.len() ==> s[next_char(s, c, from)] == c,
    decreases s.len() - from,
{
    if from < s.len() && s[from] != c {
        lemma_next_char_found(s, c, from + 1);
    }
}

/// A text of one piece holds no separator.
proof fn lemma_split_one(s: Seq<char>, sep: char)
    ensures
        split(s, sep).len() > 0,
        split(s, sep).len() == 1 ==> !s.contains(sep),
    decreases s.len(),
{
    if s.len() > 0 {
        lemma_split_one(s.drop_last(), sep);
        if split(s, sep).len() == 1 && s.contains(sep) {
            let i = choose|i: int| 0 <= i < s.len() && s[i] == sep;
            if i < s.len() - 1 {
                assert(s.drop_last()[i] == sep);
            }
        }
    }
}

/// Pieces that all hold something stay.
pub proof fn lemma_filled_whole(pieces: Seq<Seq<char>>)
    requires
        forall|i: int| 0 <= i < pieces.len() ==> (#[trigger] pieces[i]).len() > 0,
    ensures
        filled(pieces) == pieces,
    decreases pieces.len(),
{
    if pieces.len() > 0 {
        assert(pieces.last() == pieces[pieces.len() - 1]);
        assert forall|i: int| 0 <= i < pieces.drop_last().len() implies (
        #[trigger] pieces.drop_last()[i]).len() > 0 by {
            assert(pieces.drop_last()[i] == pieces[i]);
        }
        lemma_filled_whole(pieces.drop_last());
        assert(pieces.drop_last().push(pieces.last()) =~= pieces);
    } else {
        assert(pieces =~= Seq::<Seq<char>>::empty());
    }
}

/// A first piece that holds something stays the first.
pub proof fn lemma_filled_first(pieces: Seq<Seq<char>>)
    requires
        pieces.len() > 0,
        pieces[0].len() > 0,
    ensures
        filled(pieces).len() > 0,
        filled(pieces)[0] == pieces[0],
    decreases pieces.len(),
{
    if pieces.len() > 1 {
        lemma_filled_first(pieces.drop_last());
    } else {
        assert(pieces.drop_last() =~= Seq::<Seq<char>>::empty());
        assert(filled(pieces.drop_last()).len() == 0);
    }
}

/// The non-empty pieces of a text between separators.
pub fn split_filled(s: &Vec<char>, sep: char) -> (r: Vec<Vec<char>>)
    ensures
        texts(r@) == filled(split(s@, sep)),
{
    let mut out: Vec<Vec<char>> = Vec::new();
    let mut piece: Vec<char> = Vec::new();
    let ghost mut done: Seq<Seq<char>> = Seq::empty();
    let mut i: usize = 0;
    proof {
        assert(seq![Seq::<char>::empty()] =~= done.push(piece@));
        assert(texts(out@) =~= filled(done));
        assert(s@.take(0) =~= Seq::<char>::empty());
    }
    while i < s.len()
        invariant
            i <= s@.len(),
            split(s@.take(i as int), sep) == done.push(piece@),
            texts(out@) == filled(done),
        decreases s@.len() - i,
    {
        let c: char = s[i];
        assert(s@.take(i + 1).drop_last() =~= s@.take(i as int));
        assert(done.push(piece@).drop_last() =~= done);
        if c == sep {
            let ghost was = piece@;
            let ghost before = out@;
            if piece.len() > 0 {
                out.push(piece);
                assert(texts(out@) =~= texts(before).push(was));
            }
            proof {
                done = done.push(was);
                assert(done.drop_last() =~= done.take(done.len() - 1));
            }
            piece = Vec::new();
        } else {
            piece.push(c);
        }
        i += 1;
    }
    let ghost was = piece@;
    let ghost before = out@;
    if piece.len() > 0 {
        out.push(piece);
        assert(texts(out@) =~= texts(before).push(was));
    }
    assert(done.push(was).drop_last() =~= done);
    assert(s@.take(i as int) =~= s@);
    out
}

/// Append the characters of a string.
pub fn append(out: &mut String, s: &str)
    ensures
        final(out)@ == old(out)@ + s@,
{
    let chars = chars_of(s);
    let mut i: usize = 0;
    assert(out@ =~= old(out)@ + chars@.take(0));
    while i < chars.len()
        invariant
            i <= chars@.len(),
            out@ == old(out)@ + chars@.take(i as int),
        decreases chars@.len() - i,
    {
        out.push(chars[i]);
        i += 1;
        assert(chars@.take(i as int) =~= chars@.take(i - 1).push(chars@[i - 1]));
        assert(out@ =~= old(out)@ + chars@.take(i as int));
    }
    assert(chars@.take(i as int) =~= s@);
}

/// Whether a character is white space: the Unicode property `White_Space`.
pub open spec fn white_space(c: char) -> bool {
    let u = c as u32;
    ||| 0x9 <= u <= 0xD
    ||| u == 0x20
    ||| u == 0x85
    ||| u == 0xA0
    ||| u == 0x1680
    ||| 0x2000 <= u <= 0x200A
    ||| u == 0x2028
    ||| u == 0x2029
    ||| u == 0x202F
    ||| u == 0x205F
    ||| u == 0x3000
}

/// `char::is_whitespace` tells whether a character has the Unicode property
/// `White_Space`, whose characters are listed above.
pub assume_specification[ char::is_whitespace ](c: char) -> (r: bool)
    ensures
        r == white_space(c),
;

/// Whether std counts the character as lower-case. The answer is a property of
/// the Unicode tables and is only named here.
pub uninterp spec fn lower_case(c: char) -> bool;

/// `char::is_lowercase` answers the same for the same character.
pub assume_specification[ char::is_lowercase ](c: char) -> (r: bool)
    ensures
        r == lower_case(c),
;

/// Where a text starts once leading white space is dropped, from `i` on.
pub open spec fn trimmed_start(s: Seq<char>, i: int) -> int
    decreases s.len() - i,
{
    if 0 <= i < s.len() && white_space(s[i]) {
        trimmed_start(s, i + 1)
    } else {
        i
    }
}

/// Where the first `n` characters end once trailing white space is dropped.
pub open spec fn trimmed_end(s: Seq<char>, n: int) -> int
    decreases n,
{
    if 0 < n <= s.len() && white_space(s[n - 1]) {
        trimmed_end(s, n - 1)
    } else {
        n
    }
}

/// Where a text starts once leading white space is dropped.
pub fn trim_start(s: &Vec<char>) -> (r: usize)
    ensures
        r == trimmed_start(s@, 0),
        r <= s@.len(),
{
    let mut i: usize = 0;
    while i < s.len() && s[i].is_whitespace()
        invariant
            i <= s@.len(),
            trimmed_start(s@, 0) == trimmed_start(s@, i as int),
        decreases s@.len() - i,
    {
        i += 1;
    }
    i
}

/// Where a text ends once trailing white space is dropped.
pub fn trim_end(s: &Vec<char>) -> (r: usize)
    ensures
        r == trimmed_end(s@, s@.len() as int),
        r <= s@.len(),
{
    let mut n: usize = s.len();
    while n > 0 && s[n - 1].is_whitespace()
        invariant
            n <= s@.len(),
            trimmed_end(s@, s@.len() as int) == trimmed_end(s@, n as int),
        decreases n,
    {
        n -= 1;
    }
    n
}

/// Whether a text holds nothing but white space.
pub open spec fn blank(t: Seq<char>) -> bool {
    forall|i: int| 0 <= i < t.len() ==> white_space(#[trigger] t[i])
}

/// Whether a text holds nothing but white space.
pub fn is_blank(s: &str) -> (r: bool)
    ensures
        r == blank(s@),
{
    let chars = chars_of(s);
    let mut i: usize = 0;
    while i < chars.len()
        invariant
            i <= chars@.len(),
            chars@ == s@,
            forall|j: int| 0 <= j < i ==> white_space(#[trigger] chars@[j]),
        decreases chars@.len() - i,
    {
        if !chars[i].is_whitespace() {
            return false;
        }
        i += 1;
    }
    true
}

/// A text without leading and trailing white space.
pub open spec fn trimmed(s: Seq<char>) -> Seq<char> {
    let from = trimmed_start(s, 0);
    let to = trimmed_end(s, s.len() as int);
    if from <= to {
        s.subrange(from, to)
    } else {
        Seq::empty()
    }
}

/// A text without leading and trailing white space.
pub fn trim(s: &Vec<char>) -> (r: Vec<char>)
    ensures
        r@ == trimmed(s@),
{
    let from: usize = trim_start(s);
    let to: usize = trim_end(s);
    if from <= to {
        slice(s, from, to)
    } else {
        Vec::new()
    }
}

/// A number in decimal digits.
pub open spec fn decimal_of(n: nat) -> Seq<char>
    decreases n,
{
    if n < 10 {
        seq![('0' as u32 + n) as char]
    } else {
        decimal_of(n / 10).push(('0' as u32 + n % 10) as char)
    }
}

fn digit_char(d: usize) -> (r: char)
    requires
        d < 10,
    ensures
        r == ('0' as u32 + d) as char,
{
    match d {
        0 => '0',
        1 => '1',
        2 => '2',
        3 => '3',
        4 => '4',
        5 => '5',
        6 => '6',
        7 => '7',
        8 => '8',
        _ => '9',
    }
}

/// A number in decimal digits.
pub fn decimal(n: usize) -> (r: String)
    ensures
        r@ == decimal_of(n as nat),
    decreases n,
{
    if n < 10 {
        let mut out = String::new();
        out.push(digit_char(n));
        assert(out@ =~= decimal_of(n as nat));
        out
    } else {
        let mut out = decimal(n / 10);
        out.push(digit_char(n % 10));
        out
    }
}

/// How std writes a string between quotation marks, with what does not print
/// escaped. Which characters those are is a matter of the Unicode tables, so the
/// result is only named here.
pub uninterp spec fn quoted_text(s: Seq<char>) -> Seq<char>;

/// The `Debug` form of a `str`: the string in quotation marks, escaped. It is
/// the same for the same characters; what it is in full is left unsaid.
#[verifier::external_body]
pub(crate) fn quoted(s: &str) -> (r: String)
    ensures
        r@ == quoted_text(s@),
{
    format!("{s:?}")
}

/// Trimming takes away white space at both ends and nothing else: what stands
/// outside the trimmed text is white space, and it neither starts nor ends with
/// any.
pub proof fn law_trimming_takes_only_white_space(s: Seq<char>)
    ensures
        exists|a: int, b: int|
            {
                &&& 0 <= a <= b <= s.len()
                &&& trimmed(s) == #[trigger] s.subrange(a, b)
                &&& forall|i: int| 0 <= i < a ==> white_space(#[trigger] s[i])
                &&& forall|i: int| b <= i < s.len() ==> white_space(#[trigger] s[i])
                &&& a < b ==> !white_space(s[a]) && !white_space(s[b - 1])
            },
{
    lemma_trimmed_start(s, 0);
    lemma_trimmed_end(s, s.len() as int);
    let a = trimmed_start(s, 0);
    let b = trimmed_end(s, s.len() as int);
    if a <= b {
        assert(trimmed(s) == s.subrange(a, b));
    } else {
        let n = s.len() as int;
        assert(a == n);
        assert(trimmed(s) =~= s.subrange(n, n));
    }
}

/// Leading white space ends at the first character that is none.
pub proof fn lemma_trimmed_start(s: Seq<char>, i: int)
    requires
        0 <= i <= s.len(),
    ensures
        i <= trimmed_start(s, i) <= s.len(),
        forall|j: int| i <= j < trimmed_start(s, i) ==> white_space(#[trigger] s[j]),
        trimmed_start(s, i) < s.len() ==> !white_space(s[trimmed_start(s, i)]),
    decreases s.len() - i,
{
    if i < s.len() && white_space(s[i]) {
        lemma_trimmed_start(s, i + 1);
    }
}

proof fn lemma_trimmed_end(s: Seq<char>, n: int)
    requires
        0 <= n <= s.len(),
    ensures
        0 <= trimmed_end(s, n) <= n,
        forall|j: int| trimmed_end(s, n) <= j < n ==> white_space(#[trigger] s[j]),
        trimmed_end(s, n) > 0 ==> !white_space(s[trimmed_end(s, n) - 1]),
    decreases n,
{
    if n > 0 && white_space(s[n - 1]) {
        lemma_trimmed_end(s, n - 1);
    }
}

/// The number that decimal digits stand for.
pub open spec fn number_of(t: Seq<char>) -> int
    decreases t.len(),
{
    if t.len() == 0 {
        0
    } else {
        10 * number_of(t.drop_last()) + (t.last() as int - '0' as int)
    }
}

/// A number is written in decimal digits that read back as it, without leading
/// zeros.
pub proof fn law_decimals_read_back(n: nat)
    ensures
        number_of(decimal_of(n)) == n,
        decimal_of(n).len() > 0,
        forall|i: int| 0 <= i < decimal_of(n).len() ==> '0' <= #[trigger] decimal_of(n)[i] <= '9',
        decimal_of(n)[0] == '0' ==> n == 0,
        n < 10 ==> decimal_of(n).len() == 1,
    decreases n,
{
    if n < 10 {
        let t = decimal_of(n);
        assert(t.drop_last() =~= Seq::empty());
        assert(number_of(t.drop_last()) == 0);
    } else {
        law_decimals_read_back(n / 10);
        let front = decimal_of(n / 10);
        let c = ('0' as u32 + n % 10) as char;
        assert(front.push(c).drop_last() =~= front);
        assert forall|i: int| 0 <= i < decimal_of(n).len() implies '0' <= #[trigger] decimal_of(
            n,
        )[i] <= '9' by {
            if i < front.len() {
                assert(decimal_of(n)[i] == front[i]);
            }
        }
        assert(decimal_of(n)[0] == front[0]);
    }
}

/// Where a text has anything but white space, trimming keeps its first and its
/// last character of that kind.
pub proof fn lemma_trimmed_ends(t: Seq<char>)
    ensures
        ({
            let start = trimmed_start(t, 0);
            let end = trimmed_end(t, t.len() as int);
            &&& 0 <= start <= t.len()
            &&& 0 <= end <= t.len()
            &&& start < t.len() <==> end > 0
            &&& start < t.len() <==> trimmed(t).len() > 0
            &&& start < t.len() ==> trimmed(t)[0] == t[start] && trimmed(t).last() == t[end - 1]
        }),
{
    lemma_trimmed_start(t, 0);
    lemma_trimmed_end(t, t.len() as int);
}

/// Pieces set one after another with a separator between them.
pub open spec fn strung(pieces: Seq<Seq<char>>, sep: char) -> Seq<char>
    decreases pieces.len(),
{
    if pieces.len() == 0 {
        Seq::empty()
    } else if pieces.len() == 1 {
        pieces[0]
    } else {
        strung(pieces.drop_last(), sep).push(sep) + pieces.last()
    }
}

/// The pieces of a text hold no separator, and with separators between them they
/// are the text again.
pub proof fn law_a_split_text_strings_together_again(s: Seq<char>, sep: char)
    ensures
        split(s, sep).len() > 0,
        strung(split(s, sep), sep) == s,
        forall|i: int| 0 <= i < split(s, sep).len() ==> !(#[trigger] split(s, sep)[i]).contains(sep),
    decreases s.len(),
{
    let pieces = split(s, sep);
    if s.len() == 0 {
        assert(strung(pieces, sep) =~= s);
    } else {
        let front = split(s.drop_last(), sep);
        let c = s.last();
        law_a_split_text_strings_together_again(s.drop_last(), sep);
        assert(s.drop_last().push(c) =~= s);
        if c == sep {
            assert(pieces.drop_last() =~= front);
            assert(strung(pieces, sep) =~= s);
            assert forall|i: int| 0 <= i < pieces.len() implies !(
            #[trigger] pieces[i]).contains(sep) by {
                if i < front.len() {
                    assert(pieces[i] == front[i]);
                }
            }
        } else {
            assert(pieces.drop_last() =~= front.drop_last());
            assert(front.last() == front[front.len() - 1]);
            assert(strung(pieces, sep) =~= strung(front, sep).push(c));
            assert forall|i: int| 0 <= i < pieces.len() implies !(
            #[trigger] pieces[i]).contains(sep) by {
                if i < front.len() - 1 {
                    assert(pieces[i] == front[i]);
                } else {
                    let last = front[front.len() - 1];
                    assert(pieces[i] == last.push(c));
                    assert(!last.contains(sep));
                    if pieces[i].contains(sep) {
                        let q = choose|q: int| 0 <= q < pieces[i].len() && pieces[i][q] == sep;
                        assert(last[q] == sep);
                    }
                }
            }
        }
    }
}

/// The filled pieces are those that hold something, in order.
pub proof fn law_filled_pieces_are_those_with_text(pieces: Seq<Seq<char>>)
    ensures
        filled(pieces) == pieces.filter(|p: Seq<char>| p.len() > 0),
    decreases pieces.len(),
{
    reveal(Seq::filter);
    if pieces.len() > 0 {
        law_filled_pieces_are_those_with_text(pieces.drop_last());
    }
}

} // verus!
