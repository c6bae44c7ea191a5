//! Running elements and footnotes.
//!
//! Headers and footers cannot be decided from one page. A line at the top of a
//! page is indistinguishable from a heading; what makes it a running header is
//! that other pages have one in the same place. So the entry point takes every
//! page at once.
//!
//! Footnotes are per-page and live here because they are the other thing that
//! is structurally not body text.

use vstd::prelude::*;

use crate::geometry::Rect;
use crate::lines;
use crate::lines::{Line, LineModel, PlacedGlyph};
use crate::regions;
use crate::regions::{Region, RegionModel};
use crate::rules::Rule;
use crate::scalar;
use crate::scalar::Scalar;
use crate::stats;
use crate::text;
use crate::words;

verus! {

/// An element has to repeat this often.
pub const MIN_REPEATS: usize = 3;

/// A footnote is a sentence. Fewer words than this and it is a folio, a
/// datestamp, or a figure number.
pub const MIN_NOTE_WORDS: usize = 3;

/// Whether a character is a decimal digit.
pub open spec fn digit(c: char) -> bool {
    '0' <= c <= '9'
}

fn is_digit(c: char) -> (r: bool)
    ensures
        r == digit(c),
{
    c >= '0' && c <= '9'
}

/// How many characters two texts share from position `i` on, counted from the
/// start.
pub open spec fn shared_prefix(a: Seq<char>, b: Seq<char>, i: int) -> int
    decreases a.len() - i,
{
    if 0 <= i < a.len() && i < b.len() && a[i] == b[i] {
        shared_prefix(a, b, i + 1)
    } else {
        i
    }
}

/// How many characters two texts share at the end, from the last `i` on, when
/// the first `p` of each are spoken for.
pub open spec fn shared_suffix(a: Seq<char>, b: Seq<char>, p: int, i: int) -> int
    decreases a.len() - p - i,
{
    if 0 <= i < a.len() - p && i < b.len() - p && a[a.len() - 1 - i] == b[b.len() - 1 - i] {
        shared_suffix(a, b, p, i + 1)
    } else {
        i
    }
}

/// A prefix length drawn back out of a run of digits.
pub open spec fn before_digits(a: Seq<char>, p: int) -> int
    decreases p,
{
    if 0 < p <= a.len() && digit(a[p - 1]) {
        before_digits(a, p - 1)
    } else {
        p
    }
}

/// A suffix length drawn back out of a run of digits.
pub open spec fn after_digits(a: Seq<char>, s: int) -> int
    decreases s,
{
    if 0 < s <= a.len() && digit(a[a.len() - s]) {
        after_digits(a, s - 1)
    } else {
        s
    }
}

/// Whether a text is a number, or the mark that stands for one.
pub open spec fn varies(t: Seq<char>) -> bool {
    ||| t.len() > 0 && forall|i: int| 0 <= i < t.len() ==> digit(#[trigger] t[i])
    ||| t =~= seq!['{', '}']
}

/// Two texts as a template with one varying number, if they differ in nothing
/// else. Neither end of the number may fall inside a run of digits: "Page 9"
/// and "Page 10" are one template.
pub open spec fn common_template(a: Seq<char>, b: Seq<char>) -> Option<Seq<char>> {
    if a == b {
        Some(a)
    } else {
        let p0 = shared_prefix(a, b, 0);
        let s0 = shared_suffix(a, b, p0, 0);
        let p = before_digits(a, p0);
        let s = after_digits(a, s0);
        if varies(a.subrange(p, a.len() - s)) && varies(b.subrange(p, b.len() - s)) {
            Some(a.take(p) + seq!['{', '}'] + a.skip(a.len() - s))
        } else {
            None
        }
    }
}

proof fn lemma_shared_prefix(a: Seq<char>, b: Seq<char>, i: int)
    requires
        0 <= i <= a.len(),
        i <= b.len(),
        a.take(i) == b.take(i),
    ensures
        i <= shared_prefix(a, b, i) <= a.len(),
        shared_prefix(a, b, i) <= b.len(),
        a.take(shared_prefix(a, b, i)) == b.take(shared_prefix(a, b, i)),
    decreases a.len() - i,
{
    if i < a.len() && i < b.len() && a[i] == b[i] {
        assert(a.take(i + 1) =~= a.take(i).push(a[i]));
        assert(b.take(i + 1) =~= b.take(i).push(b[i]));
        lemma_shared_prefix(a, b, i + 1);
    }
}

proof fn lemma_shared_suffix(a: Seq<char>, b: Seq<char>, p: int, i: int)
    requires
        0 <= p,
        0 <= i <= a.len() - p,
        i <= b.len() - p,
        a.skip(a.len() - i) == b.skip(b.len() - i),
    ensures
        i <= shared_suffix(a, b, p, i) <= a.len() - p,
        shared_suffix(a, b, p, i) <= b.len() - p,
        a.skip(a.len() - shared_suffix(a, b, p, i)) == b.skip(
            b.len() - shared_suffix(a, b, p, i),
        ),
    decreases a.len() - i,
{
    if i < a.len() - p && i < b.len() - p && a[a.len() - 1 - i] == b[b.len() - 1 - i] {
        assert(a.skip(a.len() - (i + 1)) =~= seq![a[a.len() - 1 - i]] + a.skip(a.len() - i));
        assert(b.skip(b.len() - (i + 1)) =~= seq![b[b.len() - 1 - i]] + b.skip(b.len() - i));
        lemma_shared_suffix(a, b, p, i + 1);
    }
}

proof fn lemma_before_digits(a: Seq<char>, p: int)
    requires
        0 <= p <= a.len(),
    ensures
        0 <= before_digits(a, p) <= p,
        before_digits(a, p) > 0 ==> !digit(a[before_digits(a, p) - 1]),
    decreases p,
{
    if 0 < p && digit(a[p - 1]) {
        lemma_before_digits(a, p - 1);
    }
}

proof fn lemma_after_digits(a: Seq<char>, s: int)
    requires
        0 <= s <= a.len(),
    ensures
        0 <= after_digits(a, s) <= s,
        after_digits(a, s) > 0 ==> !digit(a[a.len() - after_digits(a, s)]),
    decreases s,
{
    if 0 < s && digit(a[a.len() - s]) {
        lemma_after_digits(a, s - 1);
    }
}

/// Whether a text is a template with its varying number put in.
pub open spec fn fits(t: Seq<char>, before: Seq<char>, field: Seq<char>, after: Seq<char>) -> bool {
    t == before + field + after && varies(field)
}

/// A template fits both texts it was made of: either they are the same and the
/// template is that text, or each is what comes before the mark, a number, and
/// what comes after it, and neither boundary falls inside a run of digits.
#[verifier::spinoff_prover]
#[verifier::rlimit(40)]
pub proof fn law_a_template_fits_both(a: Seq<char>, b: Seq<char>)
    requires
        common_template(a, b) is Some,
    ensures
        a == b ==> common_template(a, b) == Some(a),
        a != b ==> exists|before: Seq<char>, x: Seq<char>, y: Seq<char>, after: Seq<char>|
            {
                &&& common_template(a, b) == Some(before + seq!['{', '}'] + after)
                &&& #[trigger] fits(a, before, x, after)
                &&& #[trigger] fits(b, before, y, after)
                &&& before.len() > 0 ==> !digit(before.last())
                &&& after.len() > 0 ==> !digit(after[0])
            },
{
    if a != b {
        let p0 = shared_prefix(a, b, 0);
        let s0 = shared_suffix(a, b, p0, 0);
        assert(a.take(0) =~= b.take(0));
        lemma_shared_prefix(a, b, 0);
        assert(a.skip(a.len() as int) =~= b.skip(b.len() as int));
        lemma_shared_suffix(a, b, p0, 0);
        lemma_before_digits(a, p0);
        lemma_after_digits(a, s0);
        let p = before_digits(a, p0);
        let s = after_digits(a, s0);
        let before = a.take(p);
        let after = a.skip(a.len() - s);
        let x = a.subrange(p, a.len() - s);
        let y = b.subrange(p, b.len() - s);
        assert(a =~= before + x + after);
        assert(b.take(p) =~= before) by {
            assert(b.take(p) =~= b.take(p0).take(p));
            assert(a.take(p) =~= a.take(p0).take(p));
        }
        assert(b.skip(b.len() - s) =~= after) by {
            assert(b.skip(b.len() - s) =~= b.skip(b.len() - s0).skip(s0 - s));
            assert(a.skip(a.len() - s) =~= a.skip(a.len() - s0).skip(s0 - s));
        }
        assert(b =~= b.take(p) + y + b.skip(b.len() - s));
        assert(fits(a, before, x, after));
        assert(fits(b, before, y, after));
    }
}

fn is_varying(t: &Vec<char>, from: usize, to: usize) -> (r: bool)
    requires
        from <= to <= t@.len(),
    ensures
        r == varies(t@.subrange(from as int, to as int)),
{
    let ghost part = t@.subrange(from as int, to as int);
    if to - from == 2 && t[from] == '{' && t[from + 1] == '}' {
        assert(part =~= seq!['{', '}']);
        return true;
    }
    assert(!(part =~= seq!['{', '}'])) by {
        if part =~= seq!['{', '}'] {
            assert(part.len() == 2);
            assert(part[0] == '{' && part[1] == '}');
        }
    }
    let mut i: usize = from;
    while i < to
        invariant
            from <= i <= to <= t@.len(),
            part == t@.subrange(from as int, to as int),
            !(part =~= seq!['{', '}']),
            forall|k: int| 0 <= k < i - from ==> digit(#[trigger] part[k]),
        decreases to - i,
    {
        assert(part[i - from] == t@[i as int]);
        if !is_digit(t[i]) {
            return false;
        }
        i += 1;
    }
    to > from
}

/// Reduce two strings to a common template, allowing one varying run of digits.
///
/// Returns `None` when they differ in any other way, which is what stops two
/// unrelated headings in the same band from being merged into one running
/// element.
pub fn template_of(a: &str, b: &str) -> (r: Option<String>)
    ensures
        text::view_opt(r) == common_template(a@, b@),
{
    if text::same(a, b) {
        return Some(text::copy(a));
    }
    let ac = text::chars_of(a);
    let bc = text::chars_of(b);
    let mut p: usize = 0;
    while p < ac.len() && p < bc.len() && ac[p] == bc[p]
        invariant
            p <= ac@.len(),
            p <= bc@.len(),
            shared_prefix(ac@, bc@, 0) == shared_prefix(ac@, bc@, p as int),
        decreases ac@.len() - p,
    {
        p += 1;
    }
    let ghost p0 = p as int;
    let mut s: usize = 0;
    while s < ac.len() - p && s < bc.len() - p && ac[ac.len() - 1 - s] == bc[bc.len() - 1 - s]
        invariant
            p <= ac@.len(),
            p <= bc@.len(),
            s <= ac@.len() - p,
            s <= bc@.len() - p,
            shared_suffix(ac@, bc@, p as int, 0) == shared_suffix(ac@, bc@, p as int, s as int),
        decreases ac@.len() - s,
    {
        s += 1;
    }
    let ghost s0 = s as int;
    // Neither boundary may fall inside a run of digits: "Page 9" and "Page 10"
    // share the prefix "Page ", not "Page 1".
    while p > 0 && is_digit(ac[p - 1])
        invariant
            p <= p0,
            p0 <= ac@.len(),
            p0 <= bc@.len(),
            before_digits(ac@, p0) == before_digits(ac@, p as int),
        decreases p,
    {
        p -= 1;
    }
    while s > 0 && is_digit(ac[ac.len() - s])
        invariant
            s <= s0,
            s0 <= ac@.len(),
            s0 <= bc@.len(),
            after_digits(ac@, s0) == after_digits(ac@, s as int),
        decreases s,
    {
        s -= 1;
    }
    let a_end: usize = ac.len() - s;
    let b_end: usize = bc.len() - s;
    if !is_varying(&ac, p, a_end) || !is_varying(&bc, p, b_end) {
        return None;
    }
    let mut out = text::slice(&ac, 0, p);
    out.push('{');
    out.push('}');
    let mut tail = text::slice(&ac, a_end, ac.len());
    out.append(&mut tail);
    assert(ac@.subrange(0, p as int) =~= ac@.take(p as int));
    assert(ac@.subrange(a_end as int, ac@.len() as int) =~= ac@.skip(a_end as int));
    assert(out@ =~= ac@.take(p as int) + seq!['{', '}'] + ac@.skip(a_end as int));
    Some(text::string_of(&out))
}

/// Where the mark of a varying number first stands, from `i` on; the end of the
/// text where it does not.
pub open spec fn field_at(t: Seq<char>, i: int) -> int
    decreases t.len() - i,
{
    if i < 0 || i + 1 >= t.len() {
        t.len() as int
    } else if t[i] == '{' && t[i + 1] == '}' {
        i
    } else {
        field_at(t, i + 1)
    }
}

/// Whether a template has a varying number.
pub open spec fn has_field(t: Seq<char>) -> bool {
    exists|i: int| 0 <= i && i + 1 < t.len() && #[trigger] t[i] == '{' && t[i + 1] == '}'
}

proof fn lemma_field_at(t: Seq<char>, i: int)
    requires
        0 <= i,
    ensures
        field_at(t, i) <= t.len(),
        field_at(t, i) < t.len() ==> i <= field_at(t, i) && field_at(t, i) + 1 < t.len()
            && t[field_at(t, i)] == '{' && t[field_at(t, i) + 1] == '}',
        field_at(t, i) == t.len() ==> forall|k: int|
            i <= k && k + 1 < t.len() ==> !(#[trigger] t[k] == '{' && t[k + 1] == '}'),
    decreases t.len() - i,
{
    if i + 1 < t.len() && !(t[i] == '{' && t[i + 1] == '}') {
        lemma_field_at(t, i + 1);
    }
}

fn find_field(t: &Vec<char>) -> (r: usize)
    ensures
        r == field_at(t@, 0),
        (r < t@.len()) == has_field(t@),
        r < t@.len() ==> r + 1 < t@.len(),
        r <= t@.len(),
{
    proof {
        lemma_field_at(t@, 0);
    }
    let n: usize = t.len();
    if n < 2 {
        return n;
    }
    let mut i: usize = 0;
    while i < n - 1
        invariant
            2 <= n,
            n == t@.len(),
            i <= n - 1,
            field_at(t@, 0) == field_at(t@, i as int),
            field_at(t@, 0) < t@.len() ==> has_field(t@),
            field_at(t@, 0) == t@.len() ==> !has_field(t@),
        decreases n - i,
    {
        if t[i] == '{' && t[i + 1] == '}' {
            return i;
        }
        i += 1;
    }
    n
}

/// The value of the digits from `from` up to `n`.
pub open spec fn digits_value(t: Seq<char>, from: int, n: int) -> nat
    decreases n - from,
{
    if n <= from {
        0
    } else {
        digits_value(t, from, n - 1) * 10 + (t[n - 1] as int - '0' as int) as nat
    }
}

/// The whole number that a text denotes: an optional sign and digits, within
/// the range of 64 bits.
pub open spec fn number_of(t: Seq<char>) -> Option<int> {
    let signed = t.len() > 0 && (t[0] == '+' || t[0] == '-');
    let from: int = if signed {
        1
    } else {
        0
    };
    let value = digits_value(t, from, t.len() as int);
    let number = if signed && t[0] == '-' {
        -value
    } else {
        value as int
    };
    if t.len() > from && (forall|i: int| from <= i < t.len() ==> digit(#[trigger] t[i]))
        && i64::MIN <= number <= i64::MAX {
        Some(number)
    } else {
        None
    }
}

fn parse_number(t: &Vec<char>) -> (r: Option<i64>)
    ensures
        match r {
            Some(v) => number_of(t@) == Some(v as int),
            None => number_of(t@) is None,
        },
{
    let n: usize = t.len();
    if n == 0 {
        return None;
    }
    let negative = t[0] == '-';
    let from: usize = if negative || t[0] == '+' {
        1
    } else {
        0
    };
    if n <= from {
        return None;
    }
    let mut value: u128 = 0;
    let mut over = false;
    let mut i: usize = from;
    while i < n
        invariant
            from <= i <= n,
            n == t@.len(),
            negative == (t@[0] == '-'),
            from == (if negative || t@[0] == '+' {
                1int
            } else {
                0int
            }),
            forall|k: int| from <= k < i ==> digit(#[trigger] t@[k]),
            !over ==> value == digits_value(t@, from as int, i as int) && value
                <= 0x8000_0000_0000_0000,
            over ==> digits_value(t@, from as int, i as int) > 0x8000_0000_0000_0000,
        decreases n - i,
    {
        let c = t[i];
        if !is_digit(c) {
            assert(!digit(t@[i as int]));
            return None;
        }
        let d: u128 = (c as u32 - '0' as u32) as u128;
        if !over {
            value = value * 10 + d;
            if value > 0x8000_0000_0000_0000 {
                over = true;
            }
        }
        i += 1;
    }
    if over {
        None
    } else if negative {
        Some((-(value as i128)) as i64)
    } else if value < 0x8000_0000_0000_0000 {
        Some(value as i64)
    } else {
        None
    }
}

/// The number that a text has where a template has its mark, if the text is the
/// template with a number put in, space around it aside.
pub open spec fn field_value(template: Seq<char>, t: Seq<char>) -> Option<int> {
    let at = field_at(template, 0);
    let before = template.take(at);
    let after = template.skip(at + 2);
    if before.len() + after.len() <= t.len() && t.take(before.len() as int) == before && t.skip(
        t.len() - after.len(),
    ) == after {
        number_of(text::trimmed(t.subrange(before.len() as int, t.len() - after.len())))
    } else {
        None
    }
}

/// What a list of texts says.
pub open spec fn text_models(v: Seq<String>) -> Seq<Seq<char>> {
    Seq::new(v.len(), |i: int| v[i]@)
}

/// Whether the varying number of a template counts up with the pages: every
/// text has a number there, and each is larger than the one before it, as its
/// page is.
pub open spec fn counts_up(
    template: Seq<char>,
    instances: Seq<Seq<char>>,
    pages: Seq<usize>,
) -> bool {
    &&& has_field(template)
    &&& instances.len() >= MIN_REPEATS
    &&& forall|i: int|
        0 <= i < instances.len() ==> field_value(template, #[trigger] instances[i]) is Some
    &&& forall|i: int|
        0 < i < instances.len() && i < pages.len() ==> steps_up(template, instances, pages, i)
}

/// Whether a text's number, and its page, are larger than those before.
pub open spec fn steps_up(
    template: Seq<char>,
    instances: Seq<Seq<char>>,
    pages: Seq<usize>,
    i: int,
) -> bool {
    &&& field_value(template, instances[i])->0 > field_value(template, instances[i - 1])->0
    &&& pages[i] > pages[i - 1]
}

fn parts_equal(t: &Vec<char>, from: usize, of: &Vec<char>, start: usize, n: usize) -> (r: bool)
    requires
        from + n <= t@.len(),
        start + n <= of@.len(),
    ensures
        r == (t@.subrange(from as int, from + n) == of@.subrange(start as int, start + n)),
{
    let ghost a = t@.subrange(from as int, from + n);
    let ghost b = of@.subrange(start as int, start + n);
    let t_len: usize = t.len();
    let of_len: usize = of.len();
    let mut i: usize = 0;
    while i < n
        invariant
            i <= n,
            from + n <= t_len,
            start + n <= of_len,
            t_len == t@.len(),
            of_len == of@.len(),
            a == t@.subrange(from as int, from + n),
            b == of@.subrange(start as int, start + n),
            forall|k: int| 0 <= k < i ==> #[trigger] a[k] == b[k],
        decreases n - i,
    {
        if t[from + i] != of[start + i] {
            assert(a[i as int] != b[i as int]);
            return false;
        }
        i += 1;
    }
    assert(a =~= b);
    true
}

fn read_field(template: &Vec<char>, at: usize, t: &Vec<char>) -> (r: Option<i64>)
    requires
        at == field_at(template@, 0),
        at + 1 < template@.len(),
    ensures
        match r {
            Some(v) => field_value(template@, t@) == Some(v as int),
            None => field_value(template@, t@) is None,
        },
{
    let before: usize = at;
    let after: usize = template.len() - at - 2;
    let n: usize = t.len();
    if before > n || after > n - before {
        return None;
    }
    assert(template@.take(at as int) =~= template@.subrange(0, 0 + before));
    assert(template@.skip(at + 2) =~= template@.subrange(at + 2, at + 2 + after));
    assert(t@.take(before as int) =~= t@.subrange(0, 0 + before));
    assert(t@.skip(n - after) =~= t@.subrange(n - after, n - after + after));
    if !parts_equal(t, 0, template, 0, before) || !parts_equal(
        t,
        n - after,
        template,
        at + 2,
        after,
    ) {
        return None;
    }
    let field = text::slice(t, before, n - after);
    parse_number(&text::trim(&field))
}

/// Whether the varying field increments with the page index.
///
/// A field that varies but does not increment is a running head quoting a
/// section number, and propagating an edit across it would be wrong, so this is
/// deliberately stricter than "contains a number". The field read is the one
/// that the template identified, not the first digits in the string.
pub fn looks_like_page_numbering(
    template: &str,
    instances: &Vec<String>,
    pages: &Vec<usize>,
) -> (r: bool)
    ensures
        r == counts_up(template@, text_models(instances@), pages@),
{
    let ghost all = text_models(instances@);
    let t = text::chars_of(template);
    let at: usize = find_field(&t);
    if at >= t.len() || instances.len() < MIN_REPEATS {
        return false;
    }
    let mut values: Vec<i64> = Vec::new();
    let mut i: usize = 0;
    while i < instances.len()
        invariant
            i <= instances@.len(),
            t@ == template@,
            at == field_at(t@, 0),
            at + 1 < t@.len(),
            all == text_models(instances@),
            values@.len() == i,
            forall|k: int|
                0 <= k < i ==> field_value(t@, #[trigger] all[k]) == Some(values@[k] as int),
        decreases instances@.len() - i,
    {
        let one = text::chars_of(&instances[i]);
        assert(one@ == all[i as int]);
        match read_field(&t, at, &one) {
            Some(v) => {
                values.push(v);
            },
            None => {
                return false;
            },
        }
        i += 1;
    }
    assert forall|k: int| 0 <= k < all.len() implies field_value(t@, #[trigger] all[k]) is Some by {
    }
    let mut k: usize = 1;
    while k < values.len() && k < pages.len()
        invariant
            1 <= k,
            t@ == template@,
            all == text_models(instances@),
            values@.len() == instances@.len(),
            values@.len() > 0,
            k <= values@.len(),
            k <= pages@.len() || k == 1,
            forall|j: int|
                0 <= j < values@.len() ==> field_value(t@, #[trigger] all[j]) == Some(
                    values@[j] as int,
                ),
            forall|j: int| 0 < j < k && j < pages@.len() ==> steps_up(t@, all, pages@, j),
        decreases values@.len() - k,
    {
        assert(field_value(t@, all[k as int]) == Some(values@[k as int] as int));
        assert(field_value(t@, all[k - 1]) == Some(values@[k - 1] as int));
        if !(values[k] > values[k - 1] && pages[k] > pages[k - 1]) {
            assert(!steps_up(t@, all, pages@, k as int));
            return false;
        }
        assert(steps_up(t@, all, pages@, k as int));
        k += 1;
    }
    true
}

/// Where on the page a running element sits.
#[derive(Debug, Clone, Copy, PartialEq, Eq, Structural)]
pub enum Placement {
    Header,
    Footer,
}

/// A header or footer, identified across pages.
#[derive(Debug)]
pub struct RunningElement<S> {
    pub placement: Placement,
    /// Page indices on which this element appears, ascending.
    pub pages: Vec<usize>,
    /// The block index within each of those pages, parallel to `pages`.
    pub blocks: Vec<usize>,
    /// The text, with any varying numeric field replaced by `{}`.
    pub template: String,
    /// The literal text on each page, parallel to `pages`.
    pub instances: Vec<String>,
    pub bbox: Rect<S>,
    /// Whether the varying field looks like a page number. Propagating an edit
    /// of one to every page would be wrong.
    pub is_page_number: bool,
}

/// What a running element says.
#[verifier::ext_equal]
pub struct RunningModel<S> {
    pub placement: Placement,
    pub pages: Seq<usize>,
    pub blocks: Seq<usize>,
    pub template: Seq<char>,
    pub instances: Seq<Seq<char>>,
    pub bbox: Rect<S>,
    pub is_page_number: bool,
}

impl<S> View for RunningElement<S> {
    type V = RunningModel<S>;

    open spec fn view(&self) -> RunningModel<S> {
        RunningModel {
            placement: self.placement,
            pages: self.pages@,
            blocks: self.blocks@,
            template: self.template@,
            instances: text_models(self.instances@),
            bbox: self.bbox,
            is_page_number: self.is_page_number,
        }
    }
}

/// What a list of running elements says.
pub open spec fn running_models<S>(v: Seq<RunningElement<S>>) -> Seq<RunningModel<S>> {
    Seq::new(v.len(), |i: int| v[i]@)
}

fn copy_indices(v: &Vec<usize>) -> (r: Vec<usize>)
    ensures
        r@ == v@,
{
    let mut out: Vec<usize> = Vec::new();
    let mut i: usize = 0;
    while i < v.len()
        invariant
            i <= v@.len(),
            out@ == v@.take(i as int),
        decreases v@.len() - i,
    {
        out.push(v[i]);
        i += 1;
        assert(out@ =~= v@.take(i as int));
    }
    assert(out@ =~= v@);
    out
}

fn copy_texts(v: &Vec<String>) -> (r: Vec<String>)
    ensures
        r@ == v@,
{
    let mut out: Vec<String> = Vec::new();
    let mut i: usize = 0;
    while i < v.len()
        invariant
            i <= v@.len(),
            out@ == v@.take(i as int),
        decreases v@.len() - i,
    {
        out.push(v[i].clone());
        i += 1;
        assert(out@ =~= v@.take(i as int));
    }
    assert(out@ =~= v@);
    out
}

impl<S: Scalar> RunningElement<S> {
    /// An element equal to this one.
    pub fn copy(&self) -> (r: RunningElement<S>)
        ensures
            r@ == self@,
    {
        RunningElement {
            placement: self.placement,
            pages: copy_indices(&self.pages),
            blocks: copy_indices(&self.blocks),
            template: self.template.clone(),
            instances: copy_texts(&self.instances),
            bbox: self.bbox,
            is_page_number: self.is_page_number,
        }
    }
}

impl<S> RunningElement<S> {
    /// Whether every instance is identical, so an edit propagates cleanly.
    pub fn is_constant(&self) -> (r: bool)
        ensures
            r == forall|i: int|
                0 <= i < self.instances@.len() ==> (#[trigger] self.instances@[i])@
                    == self.instances@[0]@,
    {
        let mut i: usize = 1;
        while i < self.instances.len()
            invariant
                1 <= i,
                forall|k: int|
                    0 <= k < i && k < self.instances@.len() ==> (#[trigger] self.instances@[k])@
                        == self.instances@[0]@,
            decreases self.instances@.len() - i,
        {
            if !text::same(self.instances[i].as_str(), self.instances[0].as_str()) {
                return false;
            }
            i += 1;
        }
        true
    }
}

/// A page's blocks, as the cross-page pass needs them.
pub struct PageRegions<'a, S> {
    pub regions: &'a Vec<Region<S>>,
    pub media_box: Rect<S>,
}

/// A page's blocks, as said.
#[verifier::ext_equal]
pub struct PageView<S> {
    pub regions: Seq<RegionModel<S>>,
    pub media_box: Rect<S>,
}

impl<'a, S> View for PageRegions<'a, S> {
    type V = PageView<S>;

    open spec fn view(&self) -> PageView<S> {
        PageView {
            regions: regions::region_models(self.regions@),
            media_box: self.media_box,
        }
    }
}

/// What a list of pages says.
pub open spec fn page_views<'a, S>(v: Seq<PageRegions<'a, S>>) -> Seq<PageView<S>> {
    Seq::new(v.len(), |i: int| v[i]@)
}

/// Whether a block lies in the top or the bottom 12% of a page. Device space
/// grows downward from the top of the page.
pub open spec fn banded<S: Scalar>(block: Rect<S>, media: Rect<S>, placement: Placement) -> bool {
    let height = media.y1.spec_minus(media.y0);
    let band = height.spec_times(S::spec_ratio(12, 100));
    &&& !height.spec_le(scalar::zero::<S>())
    &&& match placement {
        Placement::Header => block.y1.spec_le(media.y0.spec_plus(band)),
        Placement::Footer => media.y1.spec_minus(band).spec_le(block.y0),
    }
}

/// A block that may be an instance of a running element.
#[verifier::ext_equal]
pub struct CandidateModel<S> {
    pub page: usize,
    pub block: usize,
    pub text: Seq<char>,
    pub bbox: Rect<S>,
}

/// The text of a region, a line to a row.
pub open spec fn region_text<S: Scalar>(r: RegionModel<S>) -> Seq<char> {
    regions::rows_text(r.lines, r.lines.len() as int)
}

/// The candidates among the first `n` blocks of a page.
pub open spec fn block_candidates<S: Scalar>(
    page: PageView<S>,
    index: usize,
    placement: Placement,
    n: int,
) -> Seq<CandidateModel<S>>
    decreases n,
{
    if n <= 0 {
        Seq::empty()
    } else {
        let before = block_candidates(page, index, placement, n - 1);
        let r = page.regions[n - 1];
        if banded(r.bbox, page.media_box, placement) && !text::blank(region_text(r)) {
            before.push(
                CandidateModel {
                    page: index,
                    block: (n - 1) as usize,
                    text: region_text(r),
                    bbox: r.bbox,
                },
            )
        } else {
            before
        }
    }
}

/// The candidates on the first `n` pages.
pub open spec fn candidates_of<S: Scalar>(
    pages: Seq<PageView<S>>,
    placement: Placement,
    n: int,
) -> Seq<CandidateModel<S>>
    decreases n,
{
    if n <= 0 {
        Seq::empty()
    } else {
        candidates_of(pages, placement, n - 1) + block_candidates(
            pages[n - 1],
            (n - 1) as usize,
            placement,
            pages[n - 1].regions.len() as int,
        )
    }
}

/// Whether two candidates can be instances of one element: in the same place, and
/// alike but for one number.
pub open spec fn repeats<S: Scalar>(a: CandidateModel<S>, b: CandidateModel<S>) -> bool {
    &&& b.bbox.y0.spec_minus(a.bbox.y0).spec_magnitude().spec_le(S::spec_ratio(3, 1))
    &&& common_template(a.text, b.text) is Some
}

/// A candidate and those of the others before `upto` that repeat it and are not
/// used yet, one to a page.
pub open spec fn gathered<S: Scalar>(
    c: Seq<CandidateModel<S>>,
    used: Seq<bool>,
    i: int,
    upto: int,
) -> Seq<int>
    decreases upto - i,
{
    if upto <= i + 1 {
        seq![i]
    } else {
        let before = gathered(c, used, i, upto - 1);
        if !used[upto - 1] && c[before.last()].page < c[upto - 1].page && repeats(
            c[i],
            c[upto - 1],
        ) {
            before.push(upto - 1)
        } else {
            before
        }
    }
}

/// The template of the first `n` texts, each reduced with what came before it.
pub open spec fn reduced(t: Seq<Seq<char>>, n: int) -> Option<Seq<char>>
    decreases n,
{
    if n <= 1 {
        Some(t[0])
    } else {
        match reduced(t, n - 1) {
            Some(acc) => common_template(acc, t[n - 1]),
            None => None,
        }
    }
}

/// The running element that a group of candidates makes.
pub open spec fn element_of<S: Scalar>(
    c: Seq<CandidateModel<S>>,
    group: Seq<int>,
    placement: Placement,
) -> RunningModel<S> {
    let instances = Seq::new(group.len(), |k: int| c[group[k]].text);
    let pages = Seq::new(group.len(), |k: int| c[group[k]].page);
    let template = match reduced(instances, group.len() as int) {
        Some(t) => t,
        None => instances[0],
    };
    RunningModel {
        placement,
        pages,
        blocks: Seq::new(group.len(), |k: int| c[group[k]].block),
        template,
        instances,
        bbox: c[group[0]].bbox,
        is_page_number: counts_up(template, instances, pages),
    }
}

/// How far the search for running elements has come: which candidates are used,
/// and the elements found.
#[verifier::ext_equal]
pub struct Sweep<S> {
    pub used: Seq<bool>,
    pub found: Seq<RunningModel<S>>,
}

/// The search after the first `n` candidates. A group that does not repeat
/// enough releases its members, so that they can join another.
pub open spec fn swept<S: Scalar>(
    c: Seq<CandidateModel<S>>,
    placement: Placement,
    n: int,
) -> Sweep<S>
    decreases n,
{
    if n <= 0 {
        Sweep { used: Seq::new(c.len(), |k: int| false), found: Seq::empty() }
    } else {
        let s = swept(c, placement, n - 1);
        let i = n - 1;
        if s.used[i] {
            s
        } else {
            let group = gathered(c, s.used, i, c.len() as int);
            if group.len() < MIN_REPEATS {
                Sweep { used: s.used.update(i, true), found: s.found }
            } else {
                Sweep {
                    used: Seq::new(c.len(), |k: int| s.used[k] || group.contains(k)),
                    found: s.found.push(element_of(c, group, placement)),
                }
            }
        }
    }
}

/// The running elements of one placement.
pub open spec fn elements_at<S: Scalar>(pages: Seq<PageView<S>>, placement: Placement) -> Seq<
    RunningModel<S>,
> {
    let c = candidates_of(pages, placement, pages.len() as int);
    swept(c, placement, c.len() as int).found
}

/// The headers and footers of a document.
pub open spec fn elements_of<S: Scalar>(pages: Seq<PageView<S>>) -> Seq<RunningModel<S>> {
    if pages.len() < MIN_REPEATS {
        Seq::empty()
    } else {
        elements_at(pages, Placement::Header) + elements_at(pages, Placement::Footer)
    }
}

struct Candidate<S> {
    page: usize,
    block: usize,
    text: String,
    bbox: Rect<S>,
}

impl<S> View for Candidate<S> {
    type V = CandidateModel<S>;

    closed spec fn view(&self) -> CandidateModel<S> {
        CandidateModel {
            page: self.page,
            block: self.block,
            text: self.text@,
            bbox: self.bbox,
        }
    }
}

spec fn candidate_models<S>(v: Seq<Candidate<S>>) -> Seq<CandidateModel<S>> {
    Seq::new(v.len(), |i: int| v[i]@)
}

fn in_band<S: Scalar>(block: &Rect<S>, media: &Rect<S>, placement: Placement) -> (r: bool)
    ensures
        r == banded(*block, *media, placement),
{
    let height = media.y1.minus(media.y0);
    if height.le(scalar::zero_of::<S>()) {
        return false;
    }
    let band = height.times(S::ratio(12, 100));
    match placement {
        Placement::Header => block.y1.le(media.y0.plus(band)),
        Placement::Footer => media.y1.minus(band).le(block.y0),
    }
}

fn collect_candidates<'a, S: Scalar>(
    pages: &Vec<PageRegions<'a, S>>,
    placement: Placement,
) -> (r: Vec<Candidate<S>>)
    ensures
        candidate_models(r@) == candidates_of(
            page_views(pages@),
            placement,
            pages@.len() as int,
        ),
{
    let ghost models = page_views(pages@);
    let mut out: Vec<Candidate<S>> = Vec::new();
    let mut pi: usize = 0;
    assert(candidate_models(out@) =~= candidates_of(models, placement, 0));
    while pi < pages.len()
        invariant
            pi <= pages@.len(),
            models == page_views(pages@),
            candidate_models(out@) == candidates_of(models, placement, pi as int),
        decreases pages@.len() - pi,
    {
        let page = &pages[pi];
        let ghost model = page@;
        let ghost before = candidate_models(out@);
        assert(models[pi as int] == model);
        let mut bi: usize = 0;
        assert(candidate_models(out@) =~= before + block_candidates(model, pi, placement, 0));
        while bi < page.regions.len()
            invariant
                bi <= page.regions@.len(),
                model == page@,
                candidate_models(out@) == before + block_candidates(
                    model,
                    pi,
                    placement,
                    bi as int,
                ),
            decreases page.regions@.len() - bi,
        {
            let block = &page.regions[bi];
            assert(model.regions[bi as int] == block@);
            let ghost held = out@;
            if in_band(&block.bbox, &page.media_box, placement) {
                let t = block.text();
                if !text::is_blank(&t) {
                    let one = Candidate { page: pi, block: bi, text: t, bbox: block.bbox };
                    out.push(one);
                    assert(candidate_models(out@) =~= candidate_models(held).push(one@));
                    assert(candidate_models(out@) =~= before + block_candidates(
                        model,
                        pi,
                        placement,
                        bi + 1,
                    ));
                }
            }
            bi += 1;
        }
        pi += 1;
    }
    out
}

fn is_repeat<S: Scalar>(a: &Candidate<S>, b: &Candidate<S>) -> (r: bool)
    ensures
        r == repeats(a@, b@),
{
    if !b.bbox.y0.minus(a.bbox.y0).magnitude().le(S::ratio(3, 1)) {
        return false;
    }
    template_of(&a.text, &b.text).is_some()
}

spec fn ints(v: Seq<usize>) -> Seq<int> {
    Seq::new(v.len(), |k: int| v[k] as int)
}

fn build_element<S: Scalar>(c: &Vec<Candidate<S>>, group: &Vec<usize>, placement: Placement) -> (r:
    RunningElement<S>)
    requires
        group@.len() > 0,
        forall|k: int| 0 <= k < group@.len() ==> (#[trigger] group@[k]) < c@.len(),
    ensures
        r@ == element_of(candidate_models(c@), ints(group@), placement),
{
    let ghost models = candidate_models(c@);
    let ghost g = ints(group@);
    let ghost model = element_of(models, g, placement);
    let mut pages: Vec<usize> = Vec::new();
    let mut blocks: Vec<usize> = Vec::new();
    let mut instances: Vec<String> = Vec::new();
    let mut template = c[group[0]].text.clone();
    let mut holds = true;
    let mut k: usize = 0;
    while k < group.len()
        invariant
            k <= group@.len(),
            group@.len() > 0,
            models == candidate_models(c@),
            g == ints(group@),
            model == element_of(models, g, placement),
            forall|j: int| 0 <= j < group@.len() ==> (#[trigger] group@[j]) < c@.len(),
            pages@ == model.pages.take(k as int),
            blocks@ == model.blocks.take(k as int),
            text_models(instances@) == model.instances.take(k as int),
            holds ==> reduced(model.instances, k as int) == Some(template@),
            !holds ==> reduced(model.instances, k as int) is None,
        decreases group@.len() - k,
    {
        let one = &c[group[k]];
        let ghost before = instances@;
        assert(models[g[k as int]] == one@);
        pages.push(one.page);
        blocks.push(one.block);
        let copy = one.text.clone();
        if k > 0 && holds {
            match template_of(&template, &copy) {
                Some(t) => {
                    template = t;
                },
                None => {
                    holds = false;
                },
            }
        }
        instances.push(copy);
        assert(pages@ =~= model.pages.take(k + 1));
        assert(blocks@ =~= model.blocks.take(k + 1));
        assert(text_models(instances@) =~= text_models(before).push(copy@));
        assert(text_models(instances@) =~= model.instances.take(k + 1));
        k += 1;
    }
    assert(pages@ =~= model.pages);
    assert(blocks@ =~= model.blocks);
    assert(text_models(instances@) =~= model.instances);
    assert(models[g[0]] == c@[group@[0] as int]@);
    if !holds {
        template = c[group[0]].text.clone();
    }
    let is_page_number = looks_like_page_numbering(&template, &instances, &pages);
    RunningElement {
        placement,
        pages,
        blocks,
        template,
        instances,
        bbox: c[group[0]].bbox,
        is_page_number,
    }
}

proof fn lemma_gathered<S: Scalar>(
    c: Seq<CandidateModel<S>>,
    used: Seq<bool>,
    i: int,
    upto: int,
)
    requires
        0 <= i,
        i < upto <= c.len(),
    ensures
        gathered(c, used, i, upto).len() > 0,
        gathered(c, used, i, upto)[0] == i,
        forall|k: int|
            0 <= k < gathered(c, used, i, upto).len() ==> i <= (#[trigger] gathered(
                c,
                used,
                i,
                upto,
            )[k]) < upto,
        forall|k: int|
            0 < k < gathered(c, used, i, upto).len() ==> !used[#[trigger] gathered(
                c,
                used,
                i,
                upto,
            )[k]] && repeats(c[i], c[gathered(c, used, i, upto)[k]]),
        forall|k: int, l: int|
            0 <= k < l < gathered(c, used, i, upto).len() ==> (#[trigger] gathered(
                c,
                used,
                i,
                upto,
            )[k]) < (#[trigger] gathered(c, used, i, upto)[l]),
        forall|k: int, l: int|
            0 <= k < l < gathered(c, used, i, upto).len() ==> c[#[trigger] gathered(
                c,
                used,
                i,
                upto,
            )[k]].page < c[#[trigger] gathered(c, used, i, upto)[l]].page,
    decreases upto - i,
{
    if upto > i + 1 {
        lemma_gathered(c, used, i, upto - 1);
    }
}

fn sweep<S: Scalar>(c: &Vec<Candidate<S>>, placement: Placement) -> (r: Vec<RunningElement<S>>)
    ensures
        running_models(r@) == swept(
            candidate_models(c@),
            placement,
            c@.len() as int,
        ).found,
{
    let ghost models = candidate_models(c@);
    let n: usize = c.len();
    let mut out: Vec<RunningElement<S>> = Vec::new();
    let mut used: Vec<bool> = Vec::new();
    let mut i: usize = 0;
    while i < n
        invariant
            i <= n,
            used@.len() == i,
            forall|k: int| 0 <= k < i ==> !#[trigger] used@[k],
        decreases n - i,
    {
        used.push(false);
        i += 1;
    }
    assert(used@ =~= swept(models, placement, 0).used);
    assert(running_models(out@) =~= swept(models, placement, 0).found);
    let mut i: usize = 0;
    while i < n
        invariant
            i <= n,
            n == c@.len(),
            models == candidate_models(c@),
            used@.len() == n,
            used@ == swept(models, placement, i as int).used,
            running_models(out@) == swept(models, placement, i as int).found,
        decreases n - i,
    {
        if !used[i] {
            let ghost before = used@;
            let mut group: Vec<usize> = Vec::new();
            group.push(i);
            let mut page: usize = c[i].page;
            let mut j: usize = i + 1;
            assert(ints(group@) =~= gathered(models, before, i as int, j as int));
            while j < n
                invariant
                    i < j <= n,
                    n == c@.len(),
                    n == used@.len(),
                    models == candidate_models(c@),
                    before == used@,
                    ints(group@) == gathered(models, before, i as int, j as int),
                    group@.len() > 0,
                    group@.last() < n,
                    page == c@[group@.last() as int].page,
                decreases n - j,
            {
                assert(models[i as int] == c@[i as int]@);
                assert(models[j as int] == c@[j as int]@);
                assert(ints(group@).last() == group@.last());
                assert(models[group@.last() as int] == c@[group@.last() as int]@);
                if !used[j] && page < c[j].page && is_repeat(&c[i], &c[j]) {
                    let ghost held = group@;
                    group.push(j);
                    page = c[j].page;
                    assert(ints(group@) =~= ints(held).push(j as int));
                }
                j += 1;
            }
            let ghost g = gathered(models, before, i as int, n as int);
            proof {
                lemma_gathered(models, before, i as int, n as int);
                assert forall|k: int| 0 <= k < group@.len() implies (#[trigger] group@[k]) < n by {
                    assert(ints(group@)[k] == group@[k]);
                }
            }
            if group.len() < MIN_REPEATS {
                // Not a repeat. The members stay free to join another group: a
                // page-number footer and a title footer in the same band must
                // not block each other.
                used.set(i, true);
                assert(used@ =~= swept(models, placement, i + 1).used);
            } else {
                let mut k: usize = 0;
                while k < group.len()
                    invariant
                        k <= group@.len(),
                        n == used@.len(),
                        n == before.len(),
                        g == ints(group@),
                        forall|m: int| 0 <= m < group@.len() ==> (#[trigger] group@[m]) < n,
                        forall|m: int|
                            0 <= m < n ==> #[trigger] used@[m] == (before[m] || g.take(
                                k as int,
                            ).contains(m)),
                    decreases group@.len() - k,
                {
                    used.set(group[k], true);
                    assert(g.take(k + 1) =~= g.take(k as int).push(g[k as int]));
                    assert forall|m: int| 0 <= m < n implies #[trigger] used@[m] == (before[m]
                        || g.take(k + 1).contains(m)) by {
                        lemma_contains_push(g.take(k as int), g[k as int], m);
                    }
                    k += 1;
                }
                assert(g.take(k as int) =~= g);
                assert(used@ =~= swept(models, placement, i + 1).used);
                let element = build_element(c, &group, placement);
                let ghost held = out@;
                out.push(element);
                assert(running_models(out@) =~= running_models(held).push(element@));
            }
        }
        i += 1;
    }
    out
}

proof fn lemma_contains_push(s: Seq<int>, x: int, m: int)
    ensures
        s.push(x).contains(m) == (s.contains(m) || x == m),
{
    if s.contains(m) {
        let k = choose|k: int| 0 <= k < s.len() && s[k] == m;
        assert(s.push(x)[k] == m);
    }
    if x == m {
        assert(s.push(x)[s.len() as int] == m);
    }
    if s.push(x).contains(m) && x != m {
        let k = choose|k: int| 0 <= k < s.push(x).len() && s.push(x)[k] == m;
        assert(s[k] == m);
    }
}

/// Find headers and footers across a document.
///
/// Takes every page because the question "is this a running header?" has no
/// single-page answer.
pub fn running_elements<'a, S: Scalar>(pages: &Vec<PageRegions<'a, S>>) -> (r: Vec<
    RunningElement<S>,
>)
    ensures
        running_models(r@) == elements_of(page_views(pages@)),
{
    if pages.len() < MIN_REPEATS {
        let r: Vec<RunningElement<S>> = Vec::new();
        assert(running_models(r@) =~= Seq::empty());
        return r;
    }
    let mut out = sweep(&collect_candidates(pages, Placement::Header), Placement::Header);
    let ghost first = out@;
    let mut rest = sweep(&collect_candidates(pages, Placement::Footer), Placement::Footer);
    let ghost second = rest@;
    out.append(&mut rest);
    assert(running_models(out@) =~= running_models(first) + running_models(second));
    out
}

/// Where an in-text footnote marker was found.
#[derive(Debug, Clone, Copy, PartialEq, Eq, Structural)]
pub struct MarkerSite {
    pub block: usize,
    pub line: usize,
    /// Glyph range within that line.
    pub start: usize,
    pub end: usize,
}

/// A footnote block at the foot of a page.
#[derive(Debug)]
pub struct Footnote<S> {
    /// Index into the page's blocks.
    pub block: usize,
    pub bbox: Rect<S>,
    /// The marker that starts the note.
    pub marker: Option<String>,
    /// Modal font size of the note, which is smaller than the body's.
    pub size: S,
    /// Whether a short rule was found above it.
    pub separated_by_rule: bool,
    /// Where the in-text marker referring to this note was found, if anywhere.
    /// The strongest signal: a note something refers to is a note.
    pub marker_site: Option<MarkerSite>,
}

/// What a footnote says.
#[verifier::ext_equal]
pub struct FootnoteModel<S> {
    pub block: int,
    pub bbox: Rect<S>,
    pub marker: Option<Seq<char>>,
    pub size: S,
    pub separated_by_rule: bool,
    pub marker_site: Option<MarkerSite>,
}

impl<S> View for Footnote<S> {
    type V = FootnoteModel<S>;

    open spec fn view(&self) -> FootnoteModel<S> {
        FootnoteModel {
            block: self.block as int,
            bbox: self.bbox,
            marker: text::view_opt(self.marker),
            size: self.size,
            separated_by_rule: self.separated_by_rule,
            marker_site: self.marker_site,
        }
    }
}

/// What a list of footnotes says.
pub open spec fn footnote_models<S>(v: Seq<Footnote<S>>) -> Seq<FootnoteModel<S>> {
    Seq::new(v.len(), |i: int| v[i]@)
}

/// The sizes of those of the first `n` lines that hold glyphs.
pub open spec fn filled_sizes<S>(l: Seq<LineModel<S>>, n: int) -> Seq<S>
    decreases n,
{
    if n <= 0 {
        Seq::empty()
    } else if l[n - 1].glyphs.len() > 0 {
        filled_sizes(l, n - 1).push(l[n - 1].size)
    } else {
        filled_sizes(l, n - 1)
    }
}

/// The sizes of the lines of the first `n` blocks that hold glyphs.
pub open spec fn all_sizes<S>(blocks: Seq<RegionModel<S>>, n: int) -> Seq<S>
    decreases n,
{
    if n <= 0 {
        Seq::empty()
    } else {
        all_sizes(blocks, n - 1) + filled_sizes(
            blocks[n - 1].lines,
            blocks[n - 1].lines.len() as int,
        )
    }
}

/// The modal size of a page's lines, to within half a point.
pub open spec fn page_size<S: Scalar>(blocks: Seq<RegionModel<S>>) -> S {
    stats::commonest_of(all_sizes(blocks, blocks.len() as int), S::spec_ratio(1, 2))
}

/// The modal size of a block's lines, to within half a point.
pub open spec fn size_of<S: Scalar>(block: RegionModel<S>) -> S {
    stats::commonest_of(
        filled_sizes(block.lines, block.lines.len() as int),
        S::spec_ratio(1, 2),
    )
}

/// Whether a character is one of the traditional footnote markers.
pub open spec fn symbol(c: char) -> bool {
    c == '*' || c == '\u{2020}' || c == '\u{2021}' || c == '\u{a7}' || c == '\u{b6}' || c == '#'
}

/// Where a run of digits that starts at `i` ends.
pub open spec fn digits_end(t: Seq<char>, i: int) -> int
    decreases t.len() - i,
{
    if 0 <= i < t.len() && digit(t[i]) {
        digits_end(t, i + 1)
    } else {
        i
    }
}

/// Where a run of one character that starts at `i` ends.
pub open spec fn same_end(t: Seq<char>, c: char, i: int) -> int
    decreases t.len() - i,
{
    if 0 <= i < t.len() && t[i] == c {
        same_end(t, c, i + 1)
    } else {
        i
    }
}

/// The marker that a text leads with: a numeral, or one of the traditional
/// symbols, possibly repeated.
pub open spec fn marker_of(t: Seq<char>) -> Option<Seq<char>> {
    let from = text::trimmed_start(t, 0);
    if from >= t.len() {
        None
    } else if digit(t[from]) {
        Some(t.subrange(from, digits_end(t, from)))
    } else if symbol(t[from]) {
        Some(t.subrange(from, same_end(t, t[from], from)))
    } else {
        None
    }
}

/// Where blocks start from the left.
pub open spec fn block_lefts<S>(blocks: Seq<RegionModel<S>>) -> Seq<S> {
    Seq::new(blocks.len(), |i: int| blocks[i].bbox.x0)
}

/// Where blocks end on the right.
pub open spec fn block_rights<S>(blocks: Seq<RegionModel<S>>) -> Seq<S> {
    Seq::new(blocks.len(), |i: int| blocks[i].bbox.x1)
}

/// How wide the text of a page is.
pub open spec fn text_width<S: Scalar>(blocks: Seq<RegionModel<S>>) -> S {
    let left = stats::least_of(block_lefts(blocks), S::spec_highest(), blocks.len() as int);
    let right = stats::greatest_of(block_rights(blocks), S::spec_lowest(), blocks.len() as int);
    right.spec_minus(left).spec_greatest(scalar::zero::<S>())
}

/// Whether a rule separates a block from what is above it: horizontal, within
/// 15% of the page's height, and at most half as long as the text is wide. A
/// full-width rule is a border or a table edge.
pub open spec fn separates<S: Scalar>(r: Rule<S>, block: Rect<S>, height: S, width: S) -> bool {
    &&& r.horizontal
    &&& r.spec_position().spec_lt(block.y0)
    &&& block.y0.spec_minus(height.spec_times(S::spec_ratio(15, 100))).spec_lt(r.spec_position())
    &&& r.spec_length().spec_le(width.spec_times(S::spec_ratio(1, 2)))
}

/// The footnote that a block looks like, not linked yet: in the lower third of
/// the page, in type of at most nine tenths of the body's size, and led by a
/// marker.
pub open spec fn note_at<S: Scalar>(
    blocks: Seq<RegionModel<S>>,
    r: Seq<Rule<S>>,
    media: Rect<S>,
    i: int,
) -> Option<FootnoteModel<S>> {
    let block = blocks[i];
    let height = media.y1.spec_minus(media.y0);
    let size = size_of(block);
    let marker = marker_of(region_text(block));
    if block.bbox.y0.spec_lt(media.y1.spec_minus(height.spec_over(S::spec_ratio(3, 1))))
        || block.lines.len() == 0 || size.spec_le(scalar::zero::<S>()) || page_size(
        blocks,
    ).spec_times(S::spec_ratio(9, 10)).spec_lt(size) || marker is None {
        None
    } else {
        Some(
            FootnoteModel {
                block: i,
                bbox: block.bbox,
                marker,
                size,
                separated_by_rule: exists|k: int|
                    0 <= k < r.len() && separates(
                        #[trigger] r[k],
                        block.bbox,
                        height,
                        text_width(blocks),
                    ),
                marker_site: None,
            },
        )
    }
}

/// The footnotes that the first `n` blocks look like.
pub open spec fn notes_at<S: Scalar>(
    blocks: Seq<RegionModel<S>>,
    r: Seq<Rule<S>>,
    media: Rect<S>,
    n: int,
) -> Seq<FootnoteModel<S>>
    decreases n,
{
    if n <= 0 {
        Seq::empty()
    } else {
        match note_at(blocks, r, media, n - 1) {
            Some(note) => notes_at(blocks, r, media, n - 1).push(note),
            None => notes_at(blocks, r, media, n - 1),
        }
    }
}

/// Whether a glyph is a superscript: raised, or set smaller, or both. Plenty of
/// producers shrink the font and shift the pen, leaving the rise at zero.
pub open spec fn raised<S: Scalar>(g: PlacedGlyph<S>, body: S) -> bool {
    let zero = scalar::zero::<S>();
    ||| zero.spec_lt(g.rise)
    ||| zero.spec_lt(body) && zero.spec_lt(g.size) && g.size.spec_lt(
        body.spec_times(S::spec_ratio(85, 100)),
    )
}

/// How far the runs of superscripts have come: those ended, and where the
/// current one began.
#[verifier::ext_equal]
pub struct Raising {
    pub done: Seq<(usize, usize)>,
    pub start: Option<usize>,
}

/// The runs of superscripts among the first `n` glyphs.
pub open spec fn raising<S: Scalar>(g: Seq<PlacedGlyph<S>>, body: S, n: int) -> Raising
    decreases n,
{
    if n <= 0 {
        Raising { done: Seq::empty(), start: None }
    } else {
        let r = raising(g, body, n - 1);
        let at = (n - 1) as usize;
        if raised(g[n - 1], body) {
            match r.start {
                Some(_) => r,
                None => Raising { done: r.done, start: Some(at) },
            }
        } else {
            match r.start {
                Some(start) => Raising { done: r.done.push((start, at)), start: None },
                None => r,
            }
        }
    }
}

/// Maximal runs of consecutive superscript glyphs in a line.
pub open spec fn raised_runs<S: Scalar>(g: Seq<PlacedGlyph<S>>, body: S) -> Seq<(usize, usize)> {
    let r = raising(g, body, g.len() as int);
    match r.start {
        Some(start) => r.done.push((start, g.len() as usize)),
        None => r.done,
    }
}

/// The text of the glyphs from `from` up to `to`.
pub open spec fn stretch_text<S>(g: Seq<PlacedGlyph<S>>, from: int, to: int) -> Seq<char>
    decreases to - from,
{
    if to <= from {
        Seq::empty()
    } else {
        stretch_text(g, from, to - 1) + match g[to - 1].text {
            Some(t) => t@,
            None => Seq::empty(),
        }
    }
}

/// The first of some runs of glyphs, from `k` on, whose text is a marker.
pub open spec fn run_marked<S>(
    g: Seq<PlacedGlyph<S>>,
    runs: Seq<(usize, usize)>,
    marker: Seq<char>,
    k: int,
) -> Option<(usize, usize)>
    decreases runs.len() - k,
{
    if k < 0 || k >= runs.len() {
        None
    } else if text::trimmed(stretch_text(g, runs[k].0 as int, runs[k].1 as int)) == marker {
        Some(runs[k])
    } else {
        run_marked(g, runs, marker, k + 1)
    }
}

/// The first superscript of a block, from line `i` on, that is a marker.
pub open spec fn line_marked<S: Scalar>(
    l: Seq<LineModel<S>>,
    block: usize,
    body: S,
    marker: Seq<char>,
    i: int,
) -> Option<MarkerSite>
    decreases l.len() - i,
{
    if i < 0 || i >= l.len() {
        None
    } else {
        match run_marked(l[i].glyphs, raised_runs(l[i].glyphs, body), marker, 0) {
            Some((start, end)) => Some(MarkerSite { block, line: i as usize, start, end }),
            None => line_marked(l, block, body, marker, i + 1),
        }
    }
}

/// The first superscript of a page, from block `i` on, that is a marker, the
/// block of the note itself left out.
pub open spec fn block_marked<S: Scalar>(
    blocks: Seq<RegionModel<S>>,
    note: int,
    marker: Seq<char>,
    i: int,
) -> Option<MarkerSite>
    decreases blocks.len() - i,
{
    if i < 0 || i >= blocks.len() {
        None
    } else {
        let here = if i == note {
            None
        } else {
            line_marked(blocks[i].lines, i as usize, size_of(blocks[i]), marker, 0)
        };
        match here {
            Some(site) => Some(site),
            None => block_marked(blocks, note, marker, i + 1),
        }
    }
}

/// Where a note's marker stands in the text, if anywhere.
pub open spec fn site_of<S: Scalar>(
    blocks: Seq<RegionModel<S>>,
    note: FootnoteModel<S>,
) -> Option<MarkerSite> {
    match note.marker {
        Some(marker) => block_marked(blocks, note.block, marker, 0),
        None => None,
    }
}

/// How many of the first `n` words have text.
pub open spec fn spelled<S>(w: Seq<words::WordModel<S>>, n: int) -> nat
    decreases n,
{
    if n <= 0 {
        0
    } else if w[n - 1].text.len() > 0 {
        spelled(w, n - 1) + 1
    } else {
        spelled(w, n - 1)
    }
}

/// How many words with text the first `n` lines have.
pub open spec fn words_spelled<S: Scalar>(l: Seq<LineModel<S>>, n: int) -> nat
    decreases n,
{
    if n <= 0 {
        0
    } else {
        let w = words::words_of(l[n - 1].glyphs);
        words_spelled(l, n - 1) + spelled(w, w.len() as int)
    }
}

/// A note with its link.
pub open spec fn linked<S: Scalar>(
    blocks: Seq<RegionModel<S>>,
    note: FootnoteModel<S>,
) -> FootnoteModel<S> {
    FootnoteModel { marker_site: site_of(blocks, note), ..note }
}

/// Whether a note stands: something refers to it, or it is prose and not a
/// numeral.
pub open spec fn stands<S: Scalar>(
    blocks: Seq<RegionModel<S>>,
    note: FootnoteModel<S>,
) -> bool {
    let l = blocks[note.block].lines;
    site_of(blocks, note) is Some || words_spelled(l, l.len() as int) >= MIN_NOTE_WORDS
}

/// Those of the first `n` notes that stand, linked.
pub open spec fn kept_notes<S: Scalar>(
    blocks: Seq<RegionModel<S>>,
    notes: Seq<FootnoteModel<S>>,
    n: int,
) -> Seq<FootnoteModel<S>>
    decreases n,
{
    if n <= 0 {
        Seq::empty()
    } else if stands(blocks, notes[n - 1]) {
        kept_notes(blocks, notes, n - 1).push(linked(blocks, notes[n - 1]))
    } else {
        kept_notes(blocks, notes, n - 1)
    }
}

/// The footnotes of a page.
pub open spec fn notes_of<S: Scalar>(
    blocks: Seq<RegionModel<S>>,
    r: Seq<Rule<S>>,
    media: Rect<S>,
) -> Seq<FootnoteModel<S>> {
    if page_size(blocks).spec_le(scalar::zero::<S>()) {
        Seq::empty()
    } else {
        let notes = notes_at(blocks, r, media, blocks.len() as int);
        kept_notes(blocks, notes, notes.len() as int)
    }
}

fn add_sizes<S: Scalar>(out: &mut Vec<S>, l: &Vec<Line<S>>)
    ensures
        final(out)@ == old(out)@ + filled_sizes(lines::line_models(l@), l@.len() as int),
{
    let ghost models = lines::line_models(l@);
    let ghost before = out@;
    let mut i: usize = 0;
    assert(out@ =~= before + filled_sizes(models, 0));
    while i < l.len()
        invariant
            i <= l@.len(),
            models == lines::line_models(l@),
            before == old(out)@,
            out@ == before + filled_sizes(models, i as int),
        decreases l@.len() - i,
    {
        assert(models[i as int] == l@[i as int]@);
        if !l[i].is_empty() {
            out.push(l[i].size);
            assert(out@ =~= before + filled_sizes(models, i + 1));
        }
        i += 1;
    }
}

fn modal_size<S: Scalar>(blocks: &Vec<Region<S>>) -> (r: S)
    ensures
        r == page_size(regions::region_models(blocks@)),
{
    let ghost models = regions::region_models(blocks@);
    let mut sizes: Vec<S> = Vec::new();
    let mut i: usize = 0;
    while i < blocks.len()
        invariant
            i <= blocks@.len(),
            models == regions::region_models(blocks@),
            sizes@ == all_sizes(models, i as int),
        decreases blocks@.len() - i,
    {
        assert(models[i as int] == blocks@[i as int]@);
        add_sizes(&mut sizes, &blocks[i].lines);
        i += 1;
    }
    stats::commonest(sizes, S::ratio(1, 2))
}

fn block_size<S: Scalar>(block: &Region<S>) -> (r: S)
    ensures
        r == size_of(block@),
{
    let mut sizes: Vec<S> = Vec::new();
    add_sizes(&mut sizes, &block.lines);
    assert(sizes@ =~= filled_sizes(block@.lines, block@.lines.len() as int));
    stats::commonest(sizes, S::ratio(1, 2))
}

/// The leading marker of a block: a numeral, or one of the traditional symbols.
fn leading_marker<S: Scalar>(block: &Region<S>) -> (r: Option<String>)
    ensures
        text::view_opt(r) == marker_of(region_text(block@)),
{
    let t = text::chars_of(&block.text());
    let from: usize = text::trim_start(&t);
    if from >= t.len() {
        return None;
    }
    let first = t[from];
    let mut end: usize = from;
    if is_digit(first) {
        while end < t.len() && is_digit(t[end])
            invariant
                from <= end <= t@.len(),
                digits_end(t@, from as int) == digits_end(t@, end as int),
            decreases t@.len() - end,
        {
            end += 1;
        }
    } else if first == '*' || first == '\u{2020}' || first == '\u{2021}' || first == '\u{a7}'
        || first == '\u{b6}' || first == '#' {
        while end < t.len() && t[end] == first
            invariant
                from <= end <= t@.len(),
                same_end(t@, first, from as int) == same_end(t@, first, end as int),
            decreases t@.len() - end,
        {
            end += 1;
        }
    } else {
        return None;
    }
    Some(text::string_of(&text::slice(&t, from, end)))
}

fn is_superscript<S: Scalar>(g: &PlacedGlyph<S>, body: S) -> (r: bool)
    ensures
        r == raised(*g, body),
{
    let zero = scalar::zero_of::<S>();
    zero.lt(g.rise) || (zero.lt(body) && zero.lt(g.size) && g.size.lt(
        body.times(S::ratio(85, 100)),
    ))
}

proof fn lemma_raising<S: Scalar>(g: Seq<PlacedGlyph<S>>, body: S, n: int)
    requires
        0 <= n <= g.len() <= usize::MAX,
    ensures
        forall|k: int|
            0 <= k < raising(g, body, n).done.len() ==> (#[trigger] raising(g, body, n).done[k]).0
                <= raising(g, body, n).done[k].1 <= n,
        raising(g, body, n).start matches Some(s) ==> s < n,
    decreases n,
{
    if n > 0 {
        lemma_raising(g, body, n - 1);
    }
}

/// Maximal runs of consecutive superscript glyphs in a line.
fn superscript_runs<S: Scalar>(line: &Line<S>, body: S) -> (r: Vec<(usize, usize)>)
    ensures
        r@ == raised_runs(line.glyphs@, body),
        forall|k: int|
            0 <= k < r@.len() ==> (#[trigger] r@[k]).0 <= r@[k].1 <= line.glyphs@.len(),
{
    let n: usize = line.glyphs.len();
    let mut out: Vec<(usize, usize)> = Vec::new();
    let mut start: Option<usize> = None;
    let mut i: usize = 0;
    while i < n
        invariant
            i <= n,
            n == line.glyphs@.len(),
            out@ == raising(line.glyphs@, body, i as int).done,
            start == raising(line.glyphs@, body, i as int).start,
        decreases n - i,
    {
        if is_superscript(&line.glyphs[i], body) {
            if start.is_none() {
                start = Some(i);
            }
        } else {
            if let Some(s) = start {
                out.push((s, i));
                start = None;
            }
        }
        i += 1;
    }
    proof {
        lemma_raising(line.glyphs@, body, n as int);
    }
    if let Some(s) = start {
        out.push((s, n));
    }
    out
}

fn text_between<S: Scalar>(line: &Line<S>, from: usize, to: usize) -> (r: String)
    requires
        from <= to <= line.glyphs@.len(),
    ensures
        r@ == stretch_text(line.glyphs@, from as int, to as int),
{
    let ghost g = line.glyphs@;
    let mut out = String::new();
    let mut i: usize = from;
    while i < to
        invariant
            from <= i <= to <= line.glyphs@.len(),
            g == line.glyphs@,
            out@ == stretch_text(g, from as int, i as int),
        decreases to - i,
    {
        if let Some(t) = &line.glyphs[i].text {
            text::append(&mut out, t);
        } else {
            assert(out@ + Seq::<char>::empty() =~= out@);
        }
        i += 1;
    }
    out
}

fn find_in_line<S: Scalar>(line: &Line<S>, body: S, marker: &str) -> (r: Option<(usize, usize)>)
    ensures
        r == run_marked(line.glyphs@, raised_runs(line.glyphs@, body), marker@, 0),
{
    let ghost g = line.glyphs@;
    let runs = superscript_runs(line, body);
    let mut k: usize = 0;
    while k < runs.len()
        invariant
            k <= runs@.len(),
            g == line.glyphs@,
            runs@ == raised_runs(g, body),
            forall|j: int| 0 <= j < runs@.len() ==> (#[trigger] runs@[j]).0 <= runs@[j].1
                <= g.len(),
            run_marked(g, runs@, marker@, 0) == run_marked(g, runs@, marker@, k as int),
        decreases runs@.len() - k,
    {
        let (start, end): (usize, usize) = runs[k];
        let t = text::chars_of(&text_between(line, start, end));
        let found = text::string_of(&text::trim(&t));
        if text::same(&found, marker) {
            return Some((start, end));
        }
        k += 1;
    }
    None
}

fn find_in_block<S: Scalar>(block: &Region<S>, index: usize, marker: &str) -> (r: Option<MarkerSite>)
    ensures
        r == line_marked(block@.lines, index, size_of(block@), marker@, 0),
{
    let ghost l = block@.lines;
    let body = block_size(block);
    let mut i: usize = 0;
    while i < block.lines.len()
        invariant
            i <= block.lines@.len(),
            l == lines::line_models(block.lines@),
            body == size_of(block@),
            l == block@.lines,
            line_marked(l, index, body, marker@, 0) == line_marked(
                l,
                index,
                body,
                marker@,
                i as int,
            ),
        decreases block.lines@.len() - i,
    {
        assert(l[i as int].glyphs == block.lines@[i as int].glyphs@);
        if let Some((start, end)) = find_in_line(&block.lines[i], body, marker) {
            return Some(MarkerSite { block: index, line: i, start, end });
        }
        i += 1;
    }
    None
}

fn find_marker<S: Scalar>(blocks: &Vec<Region<S>>, note: &Footnote<S>) -> (r: Option<MarkerSite>)
    ensures
        r == site_of(regions::region_models(blocks@), note@),
{
    let ghost models = regions::region_models(blocks@);
    match &note.marker {
        Some(marker) => {
            let mut i: usize = 0;
            while i < blocks.len()
                invariant
                    i <= blocks@.len(),
                    models == regions::region_models(blocks@),
                    note.marker == Some(*marker),
                    block_marked(models, note.block as int, marker@, 0) == block_marked(
                        models,
                        note.block as int,
                        marker@,
                        i as int,
                    ),
                decreases blocks@.len() - i,
            {
                assert(models[i as int] == blocks@[i as int]@);
                if i != note.block {
                    if let Some(site) = find_in_block(&blocks[i], i, marker) {
                        return Some(site);
                    }
                }
                i += 1;
            }
            None
        },
        None => None,
    }
}

/// Match footnotes to their in-text markers by numeral.
///
/// Matching runs over glyphs, not words. A superscript marker almost always
/// abuts the word it annotates with no intervening space, so segmentation makes
/// one word of the two, which never equals the marker.
pub fn link_markers<S: Scalar>(blocks: &Vec<Region<S>>, notes: &Vec<Footnote<S>>) -> (r: Vec<
    Option<MarkerSite>,
>)
    ensures
        r@ == Seq::new(
            notes@.len(),
            |i: int| site_of(regions::region_models(blocks@), notes@[i]@),
        ),
{
    let mut out: Vec<Option<MarkerSite>> = Vec::new();
    let mut i: usize = 0;
    while i < notes.len()
        invariant
            i <= notes@.len(),
            out@.len() == i,
            forall|k: int|
                0 <= k < i ==> #[trigger] out@[k] == site_of(
                    regions::region_models(blocks@),
                    notes@[k]@,
                ),
        decreases notes@.len() - i,
    {
        out.push(find_marker(blocks, &notes[i]));
        i += 1;
    }
    out
}

fn is_separated<S: Scalar>(hints: &Vec<Rule<S>>, block: &Rect<S>, height: S, width: S) -> (r: bool)
    ensures
        r == exists|k: int|
            0 <= k < hints@.len() && separates(#[trigger] hints@[k], *block, height, width),
{
    let mut i: usize = 0;
    while i < hints.len()
        invariant
            i <= hints@.len(),
            forall|k: int|
                0 <= k < i ==> !separates(#[trigger] hints@[k], *block, height, width),
        decreases hints@.len() - i,
    {
        let rule = &hints[i];
        let at = rule.position();
        if rule.horizontal && at.lt(block.y0) && block.y0.minus(
            height.times(S::ratio(15, 100)),
        ).lt(at) && rule.length().le(width.times(S::ratio(1, 2))) {
            assert(separates(hints@[i as int], *block, height, width));
            return true;
        }
        i += 1;
    }
    false
}

fn measure_text<S: Scalar>(blocks: &Vec<Region<S>>) -> (r: S)
    ensures
        r == text_width(regions::region_models(blocks@)),
{
    let ghost models = regions::region_models(blocks@);
    let mut lefts: Vec<S> = Vec::new();
    let mut rights: Vec<S> = Vec::new();
    let mut i: usize = 0;
    while i < blocks.len()
        invariant
            i <= blocks@.len(),
            models == regions::region_models(blocks@),
            lefts@ == block_lefts(models).take(i as int),
            rights@ == block_rights(models).take(i as int),
        decreases blocks@.len() - i,
    {
        assert(models[i as int] == blocks@[i as int]@);
        lefts.push(blocks[i].bbox.x0);
        rights.push(blocks[i].bbox.x1);
        i += 1;
        assert(lefts@ =~= block_lefts(models).take(i as int));
        assert(rights@ =~= block_rights(models).take(i as int));
    }
    assert(lefts@ =~= block_lefts(models));
    assert(rights@ =~= block_rights(models));
    let left = stats::least(&lefts, S::highest());
    let right = stats::greatest(&rights, S::lowest());
    right.minus(left).greatest(scalar::zero_of::<S>())
}

/// Whether a block holds enough words to be a note.
fn is_prose<S: Scalar>(block: &Region<S>) -> (r: bool)
    ensures
        r == (words_spelled(block@.lines, block@.lines.len() as int) >= MIN_NOTE_WORDS),
{
    let ghost l = block@.lines;
    let mut total: usize = 0;
    let mut i: usize = 0;
    while i < block.lines.len()
        invariant
            i <= block.lines@.len(),
            l == lines::line_models(block.lines@),
            total <= words_spelled(l, i as int),
            total < MIN_NOTE_WORDS ==> total == words_spelled(l, i as int),
        decreases block.lines@.len() - i,
    {
        assert(l[i as int].glyphs == block.lines@[i as int].glyphs@);
        let w = words::segment(&block.lines[i]);
        let ghost models = words::word_models(w@);
        let ghost before = words_spelled(l, i as int);
        let mut k: usize = 0;
        while k < w.len()
            invariant
                k <= w@.len(),
                models == words::word_models(w@),
                total <= before + spelled(models, k as int),
                total < MIN_NOTE_WORDS ==> total == before + spelled(models, k as int),
            decreases w@.len() - k,
        {
            assert(models[k as int] == w@[k as int]@);
            if total < MIN_NOTE_WORDS && !w[k].is_empty() {
                total += 1;
            }
            k += 1;
        }
        i += 1;
    }
    total >= MIN_NOTE_WORDS
}

/// Detect footnotes on one page: a block at the page bottom, in a smaller modal
/// font size, led by a marker. Whether a short rule separates it is recorded.
pub fn footnotes<S: Scalar>(
    blocks: &Vec<Region<S>>,
    hints: &Vec<Rule<S>>,
    media: Rect<S>,
) -> (r: Vec<Footnote<S>>)
    ensures
        footnote_models(r@) == notes_of(regions::region_models(blocks@), hints@, media),
{
    let ghost models = regions::region_models(blocks@);
    let mut kept: Vec<Footnote<S>> = Vec::new();
    let body = modal_size(blocks);
    if body.le(scalar::zero_of::<S>()) {
        assert(footnote_models(kept@) =~= Seq::empty());
        return kept;
    }
    let height = media.y1.minus(media.y0);
    let lower_third = media.y1.minus(height.over(S::ratio(3, 1)));
    let width = measure_text(blocks);
    let mut out: Vec<Footnote<S>> = Vec::new();
    let mut i: usize = 0;
    assert(footnote_models(out@) =~= notes_at(models, hints@, media, 0));
    while i < blocks.len()
        invariant
            i <= blocks@.len(),
            models == regions::region_models(blocks@),
            body == page_size(models),
            height == media.y1.spec_minus(media.y0),
            lower_third == media.y1.spec_minus(height.spec_over(S::spec_ratio(3, 1))),
            width == text_width(models),
            footnote_models(out@) == notes_at(models, hints@, media, i as int),
            forall|k: int| 0 <= k < out@.len() ==> (#[trigger] out@[k]).block < blocks@.len(),
        decreases blocks@.len() - i,
    {
        let block = &blocks[i];
        assert(models[i as int] == block@);
        if !block.bbox.y0.lt(lower_third) && !block.is_empty() {
            let size = block_size(block);
            // A 9.5pt line under 10pt body text is a typesetter's optical
            // correction, not a footnote.
            if !size.le(scalar::zero_of::<S>()) && !body.times(S::ratio(9, 10)).lt(size) {
                // A page number, a caption and a title block all sit at the
                // bottom in smaller type. What none of them has is a marker.
                let marker = leading_marker(block);
                if marker.is_some() {
                    let note = Footnote {
                        block: i,
                        bbox: block.bbox,
                        marker,
                        size,
                        separated_by_rule: is_separated(hints, &block.bbox, height, width),
                        marker_site: None,
                    };
                    let ghost before = out@;
                    out.push(note);
                    assert(footnote_models(out@) =~= footnote_models(before).push(note@));
                    assert(note_at(models, hints@, media, i as int) == Some(note@));
                }
            }
        }
        i += 1;
    }
    // Link first, then filter: a length test applied first would remove exactly
    // the notes that something refers to.
    let sites = link_markers(blocks, &out);
    let n: usize = out.len();
    let ghost notes = footnote_models(out@);
    let ghost list = out@;
    let mut at: usize = 0;
    assert(footnote_models(kept@) =~= kept_notes(models, notes, 0));
    for note in it: out
        invariant
            it.seq() == list,
            at == it.index(),
            notes == footnote_models(list),
            models == regions::region_models(blocks@),
            sites@ == Seq::new(list.len(), |i: int| site_of(models, list[i]@)),
            forall|k: int| 0 <= k < list.len() ==> (#[trigger] list[k]).block < blocks@.len(),
            n == list.len(),
            footnote_models(kept@) == kept_notes(models, notes, at as int),
    {
        let mut note = note;
        assert(note@ == notes[at as int]);
        let site = sites[at];
        assert(models[note.block as int] == blocks@[note.block as int]@);
        let prose = is_prose(&blocks[note.block]);
        note.marker_site = site;
        if site.is_some() || prose {
            let ghost before = kept@;
            assert(note@ =~= linked(models, notes[at as int]));
            kept.push(note);
            assert(footnote_models(kept@) =~= footnote_models(before).push(note@));
        }
        at = at + 1;
    }
    kept
}

/// Whether a block of a page is an instance of one of some running elements.
pub open spec fn is_running<S>(r: Seq<RunningModel<S>>, page: usize, index: usize) -> bool {
    exists|i: int, k: int|
        0 <= i < r.len() && 0 <= k < r[i].pages.len() && k < r[i].blocks.len()
            && #[trigger] r[i].pages[k] == page && r[i].blocks[k] == index
}

/// Lines of a block that are not part of any running element.
pub fn body_lines<'a, S: Scalar>(
    block: &'a Region<S>,
    running: &Vec<RunningElement<S>>,
    page: usize,
    index: usize,
) -> (r: &'a [Line<S>])
    ensures
        r@ == (if is_running(running_models(running@), page, index) {
            Seq::empty()
        } else {
            block.lines@
        }),
{
    let ghost all = running_models(running@);
    let mut i: usize = 0;
    while i < running.len()
        invariant
            i <= running@.len(),
            all == running_models(running@),
            forall|m: int, k: int|
                0 <= m < i && 0 <= k < all[m].pages.len() && k < all[m].blocks.len() ==> !(
                #[trigger] all[m].pages[k] == page && all[m].blocks[k] == index),
        decreases running@.len() - i,
    {
        let one = &running[i];
        assert(all[i as int] == one@);
        let mut k: usize = 0;
        while k < one.pages.len() && k < one.blocks.len()
            invariant
                k <= one.pages@.len(),
                k <= one.blocks@.len(),
                i < running@.len(),
                all == running_models(running@),
                all[i as int] == one@,
                forall|j: int|
                    0 <= j < k ==> !(#[trigger] one@.pages[j] == page && one@.blocks[j] == index),
            decreases one.pages@.len() - k,
        {
            if one.pages[k] == page && one.blocks[k] == index {
                assert(all[i as int].pages[k as int] == page);
                assert(is_running(all, page, index));
                return vstd::slice::slice_subrange(block.lines.as_slice(), 0, 0);
            }
            k += 1;
        }
        i += 1;
    }
    block.lines.as_slice()
}

/// Whether a candidate is a block of a page that lies in the margin band.
pub open spec fn from_margin<S: Scalar>(
    c: CandidateModel<S>,
    pages: Seq<PageView<S>>,
    placement: Placement,
) -> bool {
    &&& c.page < pages.len()
    &&& c.block < pages[c.page as int].regions.len()
    &&& banded(
        pages[c.page as int].regions[c.block as int].bbox,
        pages[c.page as int].media_box,
        placement,
    )
    &&& c.text == region_text(pages[c.page as int].regions[c.block as int])
}

spec fn comes_before<S>(a: CandidateModel<S>, b: CandidateModel<S>) -> bool {
    a.page < b.page || (a.page == b.page && a.block < b.block)
}

/// Whether the pages of a document, and the blocks of each, can be numbered.
pub open spec fn numberable<S>(pages: Seq<PageView<S>>) -> bool {
    &&& pages.len() <= usize::MAX
    &&& forall|i: int|
        0 <= i < pages.len() ==> (#[trigger] pages[i]).regions.len() <= usize::MAX
}

spec fn candidates_right<S: Scalar>(
    c: Seq<CandidateModel<S>>,
    pages: Seq<PageView<S>>,
    placement: Placement,
) -> bool {
    &&& forall|k: int| 0 <= k < c.len() ==> from_margin(#[trigger] c[k], pages, placement)
    &&& forall|k: int, l: int|
        0 <= k < l < c.len() ==> comes_before(#[trigger] c[k], #[trigger] c[l])
}

proof fn lemma_block_candidates<S: Scalar>(
    pages: Seq<PageView<S>>,
    index: usize,
    placement: Placement,
    n: int,
)
    requires
        numberable(pages),
        index < pages.len(),
        0 <= n <= pages[index as int].regions.len(),
    ensures
        candidates_right(
            block_candidates(pages[index as int], index, placement, n),
            pages,
            placement,
        ),
        forall|k: int|
            0 <= k < block_candidates(pages[index as int], index, placement, n).len() ==> (
            #[trigger] block_candidates(pages[index as int], index, placement, n)[k]).page == index
                && block_candidates(pages[index as int], index, placement, n)[k].block < n,
    decreases n,
{
    if n > 0 {
        lemma_block_candidates(pages, index, placement, n - 1);
    }
}

proof fn lemma_candidates<S: Scalar>(pages: Seq<PageView<S>>, placement: Placement, n: int)
    requires
        numberable(pages),
        0 <= n <= pages.len(),
    ensures
        candidates_right(candidates_of(pages, placement, n), pages, placement),
        forall|k: int|
            0 <= k < candidates_of(pages, placement, n).len() ==> (#[trigger] candidates_of(
                pages,
                placement,
                n,
            )[k]).page < n,
    decreases n,
{
    if n > 0 {
        lemma_candidates(pages, placement, n - 1);
        lemma_block_candidates(
            pages,
            (n - 1) as usize,
            placement,
            pages[n - 1].regions.len() as int,
        );
    }
}

spec fn groups<S: Scalar>(c: Seq<CandidateModel<S>>, placement: Placement, n: int) -> Seq<Seq<int>>
    decreases n,
{
    if n <= 0 {
        Seq::empty()
    } else {
        let s = swept(c, placement, n - 1);
        let before = groups(c, placement, n - 1);
        let group = gathered(c, s.used, n - 1, c.len() as int);
        if s.used[n - 1] || group.len() < MIN_REPEATS {
            before
        } else {
            before.push(group)
        }
    }
}

spec fn group_right<S: Scalar>(c: Seq<CandidateModel<S>>, g: Seq<int>) -> bool {
    &&& g.len() >= MIN_REPEATS
    &&& forall|k: int| 0 <= k < g.len() ==> 0 <= (#[trigger] g[k]) < c.len()
    &&& forall|k: int, l: int|
        0 <= k < l < g.len() ==> c[#[trigger] g[k]].page < c[#[trigger] g[l]].page
    &&& forall|k: int, l: int| 0 <= k < l < g.len() ==> (#[trigger] g[k]) < (#[trigger] g[l])
}

spec fn sweep_right<S: Scalar>(c: Seq<CandidateModel<S>>, placement: Placement, n: int) -> bool {
    let s = swept(c, placement, n);
    let g = groups(c, placement, n);
    &&& s.used.len() == c.len()
    &&& s.found.len() == g.len()
    &&& forall|i: int|
        0 <= i < g.len() ==> (#[trigger] s.found[i]) == element_of(c, g[i], placement)
    &&& forall|i: int| 0 <= i < g.len() ==> group_right(c, #[trigger] g[i])
    &&& forall|i: int, k: int|
        #![trigger g[i][k]]
        0 <= i < g.len() && 0 <= k < g[i].len() ==> s.used[g[i][k]]
    &&& forall|i: int, j: int, k: int, l: int|
        #![trigger g[i][k], g[j][l]]
        0 <= i < j < g.len() && 0 <= k < g[i].len() && 0 <= l < g[j].len() ==> g[i][k] != g[j][l]
}

proof fn lemma_sweep<S: Scalar>(c: Seq<CandidateModel<S>>, placement: Placement, n: int)
    requires
        0 <= n <= c.len(),
    ensures
        sweep_right(c, placement, n),
    decreases n,
{
    if n > 0 {
        lemma_sweep(c, placement, n - 1);
        let s = swept(c, placement, n - 1);
        let g = groups(c, placement, n - 1);
        let i = n - 1;
        if !s.used[i] {
            let group = gathered(c, s.used, i, c.len() as int);
            lemma_gathered(c, s.used, i, c.len() as int);
            if group.len() >= MIN_REPEATS {
                let t = swept(c, placement, n);
                let h = groups(c, placement, n);
                assert(h == g.push(group));
                assert forall|a: int, k: int|
                    #![trigger h[a][k]]
                    0 <= a < h.len() && 0 <= k < h[a].len() implies t.used[h[a][k]] by {
                    if a == g.len() {
                        assert(group.contains(group[k]));
                    } else {
                        assert(s.used[g[a][k]]);
                        assert(group_right(c, g[a]));
                    }
                }
                assert forall|a: int, b: int, k: int, l: int|
                    #![trigger h[a][k], h[b][l]]
                    0 <= a < b < h.len() && 0 <= k < h[a].len() && 0 <= l
                        < h[b].len() implies h[a][k] != h[b][l] by {
                    if b == g.len() {
                        assert(s.used[g[a][k]]);
                        if l == 0 {
                            assert(group[0] == i);
                        } else {
                            assert(!s.used[group[l]]);
                        }
                    } else {
                        assert(g[a][k] != g[b][l]);
                    }
                }
            } else {
                let t = swept(c, placement, n);
                assert forall|a: int, k: int|
                    #![trigger g[a][k]]
                    0 <= a < g.len() && 0 <= k < g[a].len() implies t.used[g[a][k]] by {
                    assert(s.used[g[a][k]]);
                    assert(group_right(c, g[a]));
                }
            }
        }
    }
}

/// Whether a running element is what it says: it is on at least three pages,
/// with one instance on each, in page order, each the text of a block in the margin band
/// of its page.
pub open spec fn element_right<S: Scalar>(
    e: RunningModel<S>,
    pages: Seq<PageView<S>>,
    placement: Placement,
) -> bool {
    &&& e.placement == placement
    &&& e.pages.len() >= MIN_REPEATS
    &&& e.blocks.len() == e.pages.len()
    &&& e.instances.len() == e.pages.len()
    &&& forall|k: int, l: int|
        0 <= k < l < e.pages.len() ==> (#[trigger] e.pages[k]) < (#[trigger] e.pages[l])
    &&& forall|k: int|
        0 <= k < e.pages.len() ==> from_margin(
            (CandidateModel {
                page: #[trigger] e.pages[k],
                block: e.blocks[k],
                text: e.instances[k],
                bbox: e.bbox,
            }),
            pages,
            placement,
        )
}

/// Running elements repeat, in the margin: each is on at least three pages, once
/// on each, and each instance is the text of a block in the margin band of its page. Body
/// text is never one.
pub proof fn law_running_elements_repeat_in_the_margin<S: Scalar>(
    pages: Seq<PageView<S>>,
    placement: Placement,
    i: int,
)
    requires
        numberable(pages),
        0 <= i < elements_at(pages, placement).len(),
    ensures
        element_right(elements_at(pages, placement)[i], pages, placement),
{
    let c = candidates_of(pages, placement, pages.len() as int);
    let n = c.len() as int;
    lemma_candidates(pages, placement, pages.len() as int);
    lemma_sweep(c, placement, n);
    let g = groups(c, placement, n);
    let e = elements_at(pages, placement)[i];
    assert(e == element_of(c, g[i], placement));
    assert(group_right(c, g[i]));
    assert forall|k: int, l: int| 0 <= k < l < e.pages.len() implies (#[trigger] e.pages[k]) < (
    #[trigger] e.pages[l]) by {
        assert(c[g[i][k]].page < c[g[i][l]].page);
    }
    assert forall|k: int| 0 <= k < e.pages.len() implies from_margin(
        (CandidateModel {
            page: #[trigger] e.pages[k],
            block: e.blocks[k],
            text: e.instances[k],
            bbox: e.bbox,
        }),
        pages,
        placement,
    ) by {
        assert(from_margin(c[g[i][k]], pages, placement));
    }
}

/// No block is an instance of two running elements of one placement, nor twice
/// of one.
pub proof fn law_a_block_runs_once<S: Scalar>(
    pages: Seq<PageView<S>>,
    placement: Placement,
    i: int,
    k: int,
    j: int,
    l: int,
)
    requires
        numberable(pages),
        0 <= i < elements_at(pages, placement).len(),
        0 <= j < elements_at(pages, placement).len(),
        0 <= k < elements_at(pages, placement)[i].pages.len(),
        0 <= l < elements_at(pages, placement)[j].pages.len(),
        elements_at(pages, placement)[i].pages[k] == elements_at(pages, placement)[j].pages[l],
        elements_at(pages, placement)[i].blocks[k] == elements_at(pages, placement)[j].blocks[l],
    ensures
        i == j,
        k == l,
{
    let c = candidates_of(pages, placement, pages.len() as int);
    let n = c.len() as int;
    lemma_candidates(pages, placement, pages.len() as int);
    lemma_sweep(c, placement, n);
    let g = groups(c, placement, n);
    assert(elements_at(pages, placement)[i] == element_of(c, g[i], placement));
    assert(elements_at(pages, placement)[j] == element_of(c, g[j], placement));
    assert(group_right(c, g[i]));
    assert(group_right(c, g[j]));
    let a = g[i][k];
    let b = g[j][l];
    if a < b {
        assert(comes_before(c[a], c[b]));
    } else if b < a {
        assert(comes_before(c[b], c[a]));
    }
    assert(a == b);
    if i < j {
        assert(g[i][k] != g[j][l]);
    } else if j < i {
        assert(g[j][l] != g[i][k]);
    } else if k < l {
        assert(g[i][k] < g[i][l]);
    } else if l < k {
        assert(g[i][l] < g[i][k]);
    }
}

proof fn lemma_notes_at<S: Scalar>(
    blocks: Seq<RegionModel<S>>,
    r: Seq<Rule<S>>,
    media: Rect<S>,
    n: int,
    k: int,
)
    requires
        0 <= n <= blocks.len(),
        0 <= k < notes_at(blocks, r, media, n).len(),
    ensures
        ({
            let note = notes_at(blocks, r, media, n)[k];
            0 <= note.block < n && note_at(blocks, r, media, note.block) == Some(note)
        }),
    decreases n,
{
    if n > 0 {
        if k < notes_at(blocks, r, media, n - 1).len() {
            lemma_notes_at(blocks, r, media, n - 1, k);
        }
    }
}

proof fn lemma_kept_notes<S: Scalar>(
    blocks: Seq<RegionModel<S>>,
    notes: Seq<FootnoteModel<S>>,
    n: int,
    k: int,
) -> (j: int)
    requires
        0 <= n <= notes.len(),
        0 <= k < kept_notes(blocks, notes, n).len(),
    ensures
        0 <= j < n,
        stands(blocks, notes[j]),
        kept_notes(blocks, notes, n)[k] == linked(blocks, notes[j]),
    decreases n,
{
    let before = kept_notes(blocks, notes, n - 1);
    if k < before.len() {
        lemma_kept_notes(blocks, notes, n - 1, k)
    } else {
        n - 1
    }
}

/// A footnote is led by a marker, is set in smaller type than the page's, and
/// is referred to from another block or long enough to be prose.
pub proof fn law_footnotes_are_marked_and_small<S: Scalar>(
    blocks: Seq<RegionModel<S>>,
    r: Seq<Rule<S>>,
    media: Rect<S>,
    k: int,
)
    requires
        0 <= k < notes_of(blocks, r, media).len(),
        blocks.len() <= usize::MAX,
    ensures
        ({
            let note = notes_of(blocks, r, media)[k];
            &&& 0 <= note.block < blocks.len()
            &&& note.marker is Some
            &&& note.marker == marker_of(region_text(blocks[note.block]))
            &&& note.size == size_of(blocks[note.block])
            &&& !page_size(blocks).spec_times(S::spec_ratio(9, 10)).spec_lt(note.size)
            &&& note.marker_site is None ==> words_spelled(
                blocks[note.block].lines,
                blocks[note.block].lines.len() as int,
            ) >= MIN_NOTE_WORDS
            &&& note.marker_site matches Some(site) ==> site.block != note.block
        }),
{
    let notes = notes_at(blocks, r, media, blocks.len() as int);
    let j = lemma_kept_notes(blocks, notes, notes.len() as int, k);
    lemma_notes_at(blocks, r, media, blocks.len() as int, j);
    lemma_site_elsewhere(blocks, notes[j].block, notes[j].marker->0, 0);
}

proof fn lemma_site_elsewhere<S: Scalar>(
    blocks: Seq<RegionModel<S>>,
    note: int,
    marker: Seq<char>,
    i: int,
)
    requires
        0 <= i <= blocks.len() <= usize::MAX,
    ensures
        block_marked(blocks, note, marker, i) matches Some(site) ==> site.block != note,
    decreases blocks.len() - i,
{
    if i < blocks.len() {
        lemma_site_elsewhere(blocks, note, marker, i + 1);
        if i != note {
            lemma_site_block(blocks[i].lines, i as usize, size_of(blocks[i]), marker, 0);
        }
    }
}

proof fn lemma_site_block<S: Scalar>(
    l: Seq<LineModel<S>>,
    block: usize,
    body: S,
    marker: Seq<char>,
    i: int,
)
    requires
        0 <= i <= l.len(),
    ensures
        line_marked(l, block, body, marker, i) matches Some(site) ==> site.block == block,
    decreases l.len() - i,
{
    if i < l.len() {
        lemma_site_block(l, block, body, marker, i + 1);
    }
}

/// The marker of a footnote starts its block's text, white space aside, and is
/// as long as it can be: all the digits of a numeral, or all of one of the
/// traditional symbols, as often as it is repeated.
pub proof fn law_a_marker_is_whole<S: Scalar>(
    blocks: Seq<RegionModel<S>>,
    r: Seq<Rule<S>>,
    media: Rect<S>,
    k: int,
)
    requires
        0 <= k < notes_of(blocks, r, media).len(),
    ensures
        ({
            let note = notes_of(blocks, r, media)[k];
            let t = regions::rows_text(
                blocks[note.block].lines,
                blocks[note.block].lines.len() as int,
            );
            &&& 0 <= note.block < blocks.len()
            &&& note.bbox == blocks[note.block].bbox
            &&& note.marker matches Some(m) && exists|from: int|
                {
                    let to = from + m.len();
                    let numeral = '0' <= t[from] <= '9';
                    &&& 0 <= from < to <= t.len()
                    &&& #[trigger] t.subrange(from, from + m.len()) == m
                    &&& forall|i: int| 0 <= i < from ==> text::white_space(#[trigger] t[i])
                    &&& forall|i: int|
                        0 <= i < m.len() ==> if numeral {
                            '0' <= #[trigger] m[i] <= '9'
                        } else {
                            m[i] == t[from]
                        }
                    &&& to < t.len() ==> if numeral {
                        !('0' <= t[to] <= '9')
                    } else {
                        t[to] != t[from]
                    }
                    &&& numeral || t[from] == '*' || t[from] == '\u{2020}' || t[from]
                        == '\u{2021}' || t[from] == '\u{a7}' || t[from] == '\u{b6}' || t[from]
                        == '#'
                }
        }),
{
    let notes = notes_at(blocks, r, media, blocks.len() as int);
    let j = lemma_kept_notes(blocks, notes, notes.len() as int, k);
    lemma_notes_at(blocks, r, media, blocks.len() as int, j);
    let note = notes_of(blocks, r, media)[k];
    let t = region_text(blocks[note.block]);
    let from = text::trimmed_start(t, 0);
    text::lemma_trimmed_start(t, 0);
    lemma_digits_end(t, from);
    lemma_same_end(t, t[from], from);
    let m = note.marker->0;
    assert(m == t.subrange(from, from + m.len()));
    assert(m.len() > 0);
    assert forall|i: int| 0 <= i < m.len() implies if '0' <= t[from] <= '9' {
        '0' <= #[trigger] m[i] <= '9'
    } else {
        m[i] == t[from]
    } by {
        assert(m[i] == t[from + i]);
    }
}

proof fn lemma_digits_end(t: Seq<char>, i: int)
    requires
        0 <= i <= t.len(),
    ensures
        i <= digits_end(t, i) <= t.len(),
        forall|j: int| i <= j < digits_end(t, i) ==> '0' <= #[trigger] t[j] <= '9',
        digits_end(t, i) < t.len() ==> !('0' <= t[digits_end(t, i)] <= '9'),
        i < t.len() && '0' <= t[i] <= '9' ==> i < digits_end(t, i),
    decreases t.len() - i,
{
    if i < t.len() && digit(t[i]) {
        lemma_digits_end(t, i + 1);
    }
}

proof fn lemma_same_end(t: Seq<char>, c: char, i: int)
    requires
        0 <= i <= t.len(),
    ensures
        i <= same_end(t, c, i) <= t.len(),
        forall|j: int| i <= j < same_end(t, c, i) ==> #[trigger] t[j] == c,
        same_end(t, c, i) < t.len() ==> t[same_end(t, c, i)] != c,
        i < t.len() && t[i] == c ==> i < same_end(t, c, i),
    decreases t.len() - i,
{
    if i < t.len() && t[i] == c {
        lemma_same_end(t, c, i + 1);
    }
}

/// Two texts that differ in one number and nothing else have a template: what
/// comes before the number, the mark, and what comes after it.
#[verifier::spinoff_prover]
#[verifier::rlimit(40)]
pub proof fn law_texts_that_differ_in_a_number_have_a_template(
    before: Seq<char>,
    x: Seq<char>,
    y: Seq<char>,
    after: Seq<char>,
)
    requires
        x != y,
        x.len() > 0 && y.len() > 0,
        forall|i: int| 0 <= i < x.len() ==> '0' <= #[trigger] x[i] <= '9',
        forall|i: int| 0 <= i < y.len() ==> '0' <= #[trigger] y[i] <= '9',
        before.len() > 0 ==> !('0' <= before.last() <= '9'),
        after.len() > 0 ==> !('0' <= after[0] <= '9'),
    ensures
        common_template(before + x + after, before + y + after) == Some(
            before + seq!['{', '}'] + after,
        ),
{
    let a = before + x + after;
    let b = before + y + after;
    let n = before.len() as int;
    let m = after.len() as int;
    assert(a.subrange(n, a.len() - m) =~= x);
    assert(b.subrange(n, b.len() - m) =~= y);
    assert(a != b);
    assert(a.take(0) =~= b.take(0));
    lemma_shared_prefix(a, b, 0);
    let p0 = shared_prefix(a, b, 0);
    lemma_prefix_ends(a, b, 0);
    assert(n <= p0) by {
        if p0 < n {
            assert(a[p0] == before[p0] && b[p0] == before[p0]);
        }
    }
    let least = if x.len() < y.len() {
        x.len() as int
    } else {
        y.len() as int
    };
    assert(p0 <= n + least) by {
        if p0 > n + least {
            assert(a.take(p0)[n + least] == b.take(p0)[n + least]);
            assert(a[n + least] == b[n + least]);
            if x.len() < y.len() {
                assert(a[n + least] == after[0]);
                assert(b[n + least] == y[least]);
            } else if y.len() < x.len() {
                assert(b[n + least] == after[0]);
                assert(a[n + least] == x[least]);
            } else {
                assert forall|i: int| 0 <= i < x.len() implies x[i] == y[i] by {
                    assert(a.take(p0)[n + i] == b.take(p0)[n + i]);
                }
                assert(x =~= y);
            }
        }
    }
    lemma_before_digits_at(a, p0, n, before, x);
    let p = before_digits(a, p0);
    assert(p == n);
    assert(a.skip(a.len() as int) =~= b.skip(b.len() as int));
    lemma_shared_suffix(a, b, p0, 0);
    let s0 = shared_suffix(a, b, p0, 0);
    lemma_suffix_ends(a, b, p0, 0);
    assert(m <= s0) by {
        if s0 < m {
            assert(a[a.len() - 1 - s0] == after[m - 1 - s0]);
            assert(b[b.len() - 1 - s0] == after[m - 1 - s0]);
        }
    }
    lemma_after_digits_at(a, s0, n, x, after);
    assert(after_digits(a, s0) == m);
    assert(varies(x) && varies(y));
    assert(a.take(n) =~= before);
    assert(a.skip(a.len() - m) =~= after);
}

proof fn lemma_prefix_ends(a: Seq<char>, b: Seq<char>, i: int)
    requires
        0 <= i <= a.len(),
        i <= b.len(),
    ensures
        ({
            let p = shared_prefix(a, b, i);
            p < a.len() && p < b.len() ==> a[p] != b[p]
        }),
    decreases a.len() - i,
{
    if i < a.len() && i < b.len() && a[i] == b[i] {
        lemma_prefix_ends(a, b, i + 1);
    }
}

proof fn lemma_suffix_ends(a: Seq<char>, b: Seq<char>, p: int, i: int)
    requires
        0 <= p,
        0 <= i <= a.len() - p,
        i <= b.len() - p,
    ensures
        ({
            let s = shared_suffix(a, b, p, i);
            s < a.len() - p && s < b.len() - p ==> a[a.len() - 1 - s] != b[b.len() - 1 - s]
        }),
    decreases a.len() - i,
{
    if i < a.len() - p && i < b.len() - p && a[a.len() - 1 - i] == b[b.len() - 1 - i] {
        lemma_suffix_ends(a, b, p, i + 1);
    }
}

proof fn lemma_before_digits_at(a: Seq<char>, p: int, n: int, before: Seq<char>, x: Seq<char>)
    requires
        n == before.len(),
        n <= p <= n + x.len() <= a.len(),
        forall|i: int| 0 <= i < n ==> #[trigger] a[i] == before[i],
        forall|i: int| n <= i < n + x.len() ==> '0' <= #[trigger] a[i] <= '9',
        before.len() > 0 ==> !('0' <= before.last() <= '9'),
    ensures
        before_digits(a, p) == n,
    decreases p,
{
    if p > n {
        assert('0' <= a[p - 1] <= '9');
        lemma_before_digits_at(a, p - 1, n, before, x);
    } else if n > 0 {
        assert(a[n - 1] == before[n - 1]);
    }
}

proof fn lemma_after_digits_at(a: Seq<char>, s: int, n: int, x: Seq<char>, after: Seq<char>)
    requires
        0 <= n,
        a.len() == n + x.len() + after.len(),
        after.len() <= s <= x.len() + after.len(),
        forall|i: int| n <= i < n + x.len() ==> '0' <= #[trigger] a[i] <= '9',
        forall|i: int| 0 <= i < after.len() ==> a[n + x.len() + i] == #[trigger] after[i],
        after.len() > 0 ==> !('0' <= after[0] <= '9'),
    ensures
        after_digits(a, s) == after.len(),
    decreases s,
{
    if s > after.len() {
        assert('0' <= a[a.len() - s] <= '9');
        lemma_after_digits_at(a, s - 1, n, x, after);
    } else if after.len() > 0 {
        assert(a[n + x.len() + 0] == after[0]);
    }
}

/// The number of a page is read where the template has its mark: a text made of
/// what comes before, a number in digits, and what comes after gives that
/// number.
pub proof fn law_a_number_is_read_at_the_mark(before: Seq<char>, n: nat, after: Seq<char>)
    requires
        n <= i64::MAX,
        forall|i: int| 0 <= i < before.len() ==> #[trigger] before[i] != '{',
    ensures
        has_field(before + seq!['{', '}'] + after),
        field_value(
            before + seq!['{', '}'] + after,
            before + text::decimal_of(n) + after,
        ) == Some(n as int),
{
    let template = before + seq!['{', '}'] + after;
    let digits = text::decimal_of(n);
    let t = before + digits + after;
    let k = before.len() as int;
    assert(template[k] == '{' && template[k + 1] == '}');
    lemma_field_found(template, 0, k);
    assert(template.take(k) =~= before);
    assert(template.skip(k + 2) =~= after);
    assert(t.take(k) =~= before);
    assert(t.skip(t.len() - after.len()) =~= after);
    assert(t.subrange(k, t.len() - after.len()) =~= digits);
    text::law_decimals_read_back(n);
    assert(text::trimmed(digits) =~= digits) by {
        text::lemma_trimmed_ends(digits);
        assert(!text::white_space(digits[0]) && !text::white_space(digits[digits.len() - 1]));
    }
    lemma_digits_value(digits, digits.len() as int);
    assert(digits.take(digits.len() as int) =~= digits);
}

proof fn lemma_field_found(t: Seq<char>, i: int, k: int)
    requires
        0 <= i <= k,
        k + 1 < t.len(),
        t[k] == '{' && t[k + 1] == '}',
        forall|j: int| i <= j < k ==> #[trigger] t[j] != '{',
    ensures
        field_at(t, i) == k,
    decreases k - i,
{
    if i < k {
        lemma_field_found(t, i + 1, k);
    }
}

proof fn lemma_digits_value(t: Seq<char>, n: int)
    requires
        0 <= n <= t.len(),
        forall|i: int| 0 <= i < t.len() ==> '0' <= #[trigger] t[i] <= '9',
    ensures
        digits_value(t, 0, n) == text::number_of(t.take(n)),
    decreases n,
{
    if n > 0 {
        lemma_digits_value(t, n - 1);
        assert(t.take(n).drop_last() =~= t.take(n - 1));
        assert(t.take(n).last() == t[n - 1]);
        assert('0' <= t[n - 1] <= '9');
    }
}

/// A page number has a number on every page, and the numbers ascend with the
/// pages. What has no mark is none.
pub proof fn law_page_numbers_ascend<S: Scalar>(
    pages: Seq<PageView<S>>,
    placement: Placement,
    i: int,
    k: int,
)
    requires
        numberable(pages),
        0 <= i < elements_at(pages, placement).len(),
        elements_at(pages, placement)[i].is_page_number,
        0 < k < elements_at(pages, placement)[i].pages.len(),
    ensures
        ({
            let e = elements_at(pages, placement)[i];
            &&& exists|j: int|
                0 <= j && j + 1 < e.template.len() && #[trigger] e.template[j] == '{'
                    && e.template[j + 1] == '}'
            &&& field_value(e.template, e.instances[k - 1]) matches Some(a) && field_value(
                e.template,
                e.instances[k],
            ) matches Some(b) && a < b
            &&& e.pages[k - 1] < e.pages[k]
        }),
{
    law_running_elements_repeat_in_the_margin(pages, placement, i);
    let c = candidates_of(pages, placement, pages.len() as int);
    lemma_candidates(pages, placement, pages.len() as int);
    lemma_sweep(c, placement, c.len() as int);
    let g = groups(c, placement, c.len() as int);
    let e = elements_at(pages, placement)[i];
    assert(e == element_of(c, g[i], placement));
    assert(counts_up(e.template, e.instances, e.pages));
    assert(field_value(e.template, e.instances[k - 1]) is Some);
    assert(steps_up(e.template, e.instances, e.pages, k));
}

/// The instances of a running element stand within three points of the height of
/// the first, and each is alike to it but for one number.
pub proof fn law_instances_stand_at_one_height<S: Scalar>(
    pages: Seq<PageView<S>>,
    placement: Placement,
    i: int,
    k: int,
)
    requires
        numberable(pages),
        0 <= i < elements_at(pages, placement).len(),
        0 < k < elements_at(pages, placement)[i].pages.len(),
    ensures
        ({
            let e = elements_at(pages, placement)[i];
            let first = pages[e.pages[0] as int].regions[e.blocks[0] as int];
            let other = pages[e.pages[k] as int].regions[e.blocks[k] as int];
            &&& e.bbox == first.bbox
            &&& other.bbox.y0.spec_minus(first.bbox.y0).spec_magnitude().spec_le(
                S::spec_ratio(3, 1),
            )
            &&& common_template(e.instances[0], e.instances[k]) is Some
        }),
{
    let c = candidates_of(pages, placement, pages.len() as int);
    lemma_candidates(pages, placement, pages.len() as int);
    lemma_boxes(pages, placement, pages.len() as int);
    lemma_sweep(c, placement, c.len() as int);
    lemma_groups_repeat(c, placement, c.len() as int, i, k);
    let g = groups(c, placement, c.len() as int);
    let e = elements_at(pages, placement)[i];
    assert(e == element_of(c, g[i], placement));
    assert(group_right(c, g[i]));
    assert(0 <= g[i][0] < c.len() && 0 <= g[i][k] < c.len());
}

proof fn lemma_boxes<S: Scalar>(pages: Seq<PageView<S>>, placement: Placement, n: int)
    requires
        numberable(pages),
        0 <= n <= pages.len(),
    ensures
        forall|k: int|
            0 <= k < candidates_of(pages, placement, n).len() ==> {
                let c = #[trigger] candidates_of(pages, placement, n)[k];
                c.page < n && c.block < pages[c.page as int].regions.len() && c.bbox
                    == pages[c.page as int].regions[c.block as int].bbox
            },
    decreases n,
{
    if n > 0 {
        lemma_boxes(pages, placement, n - 1);
        let page = pages[n - 1];
        lemma_block_boxes(page, (n - 1) as usize, placement, page.regions.len() as int);
        let before = candidates_of(pages, placement, n - 1);
        let own = block_candidates(
            page,
            (n - 1) as usize,
            placement,
            page.regions.len() as int,
        );
        assert forall|k: int| 0 <= k < candidates_of(pages, placement, n).len() implies {
            let c = #[trigger] candidates_of(pages, placement, n)[k];
            c.page < n && c.block < pages[c.page as int].regions.len() && c.bbox
                == pages[c.page as int].regions[c.block as int].bbox
        } by {
            if k < before.len() {
                assert(candidates_of(pages, placement, n)[k] == before[k]);
            } else {
                assert(candidates_of(pages, placement, n)[k] == own[k - before.len()]);
            }
        }
    }
}

proof fn lemma_block_boxes<S: Scalar>(page: PageView<S>, index: usize, placement: Placement, n: int)
    requires
        0 <= n <= page.regions.len() <= usize::MAX,
    ensures
        forall|k: int|
            0 <= k < block_candidates(page, index, placement, n).len() ==> {
                let c = #[trigger] block_candidates(page, index, placement, n)[k];
                c.page == index && c.block < n && c.bbox == page.regions[c.block as int].bbox
            },
    decreases n,
{
    if n > 0 {
        lemma_block_boxes(page, index, placement, n - 1);
    }
}

proof fn lemma_groups_repeat<S: Scalar>(
    c: Seq<CandidateModel<S>>,
    placement: Placement,
    n: int,
    i: int,
    k: int,
)
    requires
        0 <= n <= c.len(),
        0 <= i < groups(c, placement, n).len(),
        0 < k < groups(c, placement, n)[i].len(),
    ensures
        ({
            let g = groups(c, placement, n)[i];
            repeats(c[g[0]], c[g[k]])
        }),
    decreases n,
{
    if n > 0 {
        let before = groups(c, placement, n - 1);
        if i < before.len() {
            lemma_groups_repeat(c, placement, n - 1, i, k);
        } else {
            let s = swept(c, placement, n - 1);
            lemma_gathered(c, s.used, n - 1, c.len() as int);
        }
    }
}

/// The margins of a page are its top and its bottom 12%: a block is in one where
/// all of it is.
pub proof fn law_margins_are_the_outer_parts<S: Scalar>(block: Rect<S>, media: Rect<S>)
    ensures
        ({
            let height = media.y1.spec_minus(media.y0);
            let band = height.spec_times(S::spec_ratio(12, 100));
            &&& banded(block, media, Placement::Header) <==> !height.spec_le(S::spec_ratio(0, 1))
                && block.y1.spec_le(media.y0.spec_plus(band))
            &&& banded(block, media, Placement::Footer) <==> !height.spec_le(S::spec_ratio(0, 1))
                && media.y1.spec_minus(band).spec_le(block.y0)
        }),
{
}

/// The headers come before the footers, and under three pages there are none.
pub proof fn law_headers_come_before_footers<S: Scalar>(
    pages: Seq<PageView<S>>,
    i: int,
    j: int,
)
    requires
        numberable(pages),
        0 <= i < j < elements_of(pages).len(),
    ensures
        pages.len() >= 3,
        elements_of(pages)[i].placement == Placement::Footer ==> elements_of(pages)[j].placement
            == Placement::Footer,
{
    let a = elements_at(pages, Placement::Header);
    let b = elements_at(pages, Placement::Footer);
    assert(elements_of(pages) == a + b);
    if i < a.len() {
        law_running_elements_repeat_in_the_margin(pages, Placement::Header, i);
    }
    if j >= a.len() {
        law_running_elements_repeat_in_the_margin(pages, Placement::Footer, j - a.len());
    }
}

/// A text that stands at one place in the margin of every page is found as one
/// running element, on all of them.
pub proof fn law_what_stands_on_every_page_is_found(
    pages: Seq<PageView<scalar::Fixed>>,
    placement: Placement,
    t: Seq<char>,
    at: Rect<scalar::Fixed>,
)
    requires
        3 <= pages.len() <= usize::MAX,
        exists|i: int| 0 <= i < t.len() && !text::white_space(#[trigger] t[i]),
        forall|p: int|
            0 <= p < pages.len() ==> {
                &&& (#[trigger] pages[p]).regions.len() == 1
                &&& pages[p].regions[0].bbox == at
                &&& banded(at, pages[p].media_box, placement)
                &&& regions::rows_text(
                    pages[p].regions[0].lines,
                    pages[p].regions[0].lines.len() as int,
                ) == t
            },
    ensures
        ({
            let found = elements_at(pages, placement);
            &&& found.len() == 1
            &&& found[0].pages == Seq::new(pages.len(), |p: int| p as usize)
            &&& found[0].template == t && found[0].bbox == at
            &&& found[0].instances == Seq::new(pages.len(), |p: int| t)
        }),
{
    let n = pages.len() as int;
    let c = candidates_of(pages, placement, n);
    lemma_even_candidates(pages, placement, t, at, n);
    let none = Seq::new(c.len(), |k: int| false);
    lemma_all_gathered(c, none, t, at, n);
    let group = gathered(c, none, 0, n);
    let one = swept(c, placement, 1);
    assert(swept(c, placement, 0).used =~= none);
    assert(one.found =~= seq![element_of(c, group, placement)]);
    assert forall|k: int| 0 <= k < n implies #[trigger] one.used[k] by {
        assert(group[k] == k);
        assert(group.contains(k));
    }
    lemma_swept_used(c, placement, n);
    let e = element_of(c, group, placement);
    assert(e.pages =~= Seq::new(pages.len(), |p: int| p as usize));
    assert(e.instances =~= Seq::new(pages.len(), |p: int| t));
    lemma_even_template(e.instances, t, n);
}

proof fn lemma_even_candidates(
    pages: Seq<PageView<scalar::Fixed>>,
    placement: Placement,
    t: Seq<char>,
    at: Rect<scalar::Fixed>,
    n: int,
)
    requires
        0 <= n <= pages.len() <= usize::MAX,
        exists|i: int| 0 <= i < t.len() && !text::white_space(#[trigger] t[i]),
        forall|p: int|
            0 <= p < pages.len() ==> {
                &&& (#[trigger] pages[p]).regions.len() == 1
                &&& pages[p].regions[0].bbox == at
                &&& banded(at, pages[p].media_box, placement)
                &&& regions::rows_text(
                    pages[p].regions[0].lines,
                    pages[p].regions[0].lines.len() as int,
                ) == t
            },
    ensures
        candidates_of(pages, placement, n) == Seq::new(
            n as nat,
            |p: int| CandidateModel { page: p as usize, block: 0, text: t, bbox: at },
        ),
    decreases n,
{
    let all = Seq::new(
        n as nat,
        |p: int| CandidateModel { page: p as usize, block: 0usize, text: t, bbox: at },
    );
    if n > 0 {
        lemma_even_candidates(pages, placement, t, at, n - 1);
        let page = pages[n - 1];
        assert(!text::blank(t));
        reveal_with_fuel(block_candidates, 2);
        let own = block_candidates(page, (n - 1) as usize, placement, 1);
        assert(own =~= seq![
            CandidateModel { page: (n - 1) as usize, block: 0usize, text: t, bbox: at },
        ]);
        assert(candidates_of(pages, placement, n) =~= all);
    } else {
        assert(candidates_of(pages, placement, n) =~= all);
    }
}

proof fn lemma_all_gathered(
    c: Seq<CandidateModel<scalar::Fixed>>,
    used: Seq<bool>,
    t: Seq<char>,
    at: Rect<scalar::Fixed>,
    upto: int,
)
    requires
        1 <= upto <= c.len() <= usize::MAX,
        used == Seq::new(c.len(), |k: int| false),
        c == Seq::new(
            c.len(),
            |p: int| CandidateModel { page: p as usize, block: 0, text: t, bbox: at },
        ),
    ensures
        gathered(c, used, 0, upto) == Seq::new(upto as nat, |k: int| k),
    decreases upto,
{
    if upto > 1 {
        lemma_all_gathered(c, used, t, at, upto - 1);
        let before = gathered(c, used, 0, upto - 1);
        scalar::law_fixed_point_arithmetic(at.y0, at.y0, 3);
        assert(repeats(c[0], c[upto - 1]));
        assert(c[before.last()].page == upto - 2);
        assert(gathered(c, used, 0, upto) =~= Seq::new(upto as nat, |k: int| k));
    } else {
        assert(gathered(c, used, 0, upto) =~= Seq::new(upto as nat, |k: int| k));
    }
}

proof fn lemma_swept_used<S: Scalar>(c: Seq<CandidateModel<S>>, placement: Placement, n: int)
    requires
        1 <= n <= c.len(),
        forall|k: int| 0 <= k < c.len() ==> #[trigger] swept(c, placement, 1).used[k],
    ensures
        swept(c, placement, n) == swept(c, placement, 1),
    decreases n,
{
    if n > 1 {
        lemma_swept_used(c, placement, n - 1);
        assert(swept(c, placement, 1).used[n - 1]);
    }
}

proof fn lemma_even_template(instances: Seq<Seq<char>>, t: Seq<char>, n: int)
    requires
        1 <= n <= instances.len(),
        forall|k: int| 0 <= k < instances.len() ==> #[trigger] instances[k] == t,
    ensures
        reduced(instances, n) == Some(t),
    decreases n,
{
    if n > 1 {
        lemma_even_template(instances, t, n - 1);
    }
}

/// Whether a glyph is set as a superscript in type of a size: it is raised, or it
/// is under 85% of the size.
pub open spec fn set_high<S: Scalar>(g: PlacedGlyph<S>, body: S) -> bool {
    let none = S::spec_ratio(0, 1);
    none.spec_lt(g.rise) || none.spec_lt(body) && none.spec_lt(g.size) && g.size.spec_lt(
        body.spec_times(S::spec_ratio(85, 100)),
    )
}

/// Whether a stretch of glyphs is set high, and as long as it can be.
pub open spec fn high_stretch<S: Scalar>(
    g: Seq<PlacedGlyph<S>>,
    body: S,
    start: int,
    end: int,
) -> bool {
    &&& 0 <= start < end <= g.len()
    &&& forall|i: int| start <= i < end ==> set_high(#[trigger] g[i], body)
    &&& start > 0 ==> !set_high(g[start - 1], body)
    &&& end < g.len() ==> !set_high(g[end], body)
}

/// The superscripts of a line are its longest stretches of glyphs set high, from
/// left to right.
pub proof fn law_superscripts_are_the_stretches_set_high<S: Scalar>(
    g: Seq<PlacedGlyph<S>>,
    body: S,
    start: usize,
    end: usize,
)
    requires
        g.len() <= usize::MAX,
    ensures
        raised_runs(g, body).contains((start, end)) <==> high_stretch(
            g,
            body,
            start as int,
            end as int,
        ),
{
    let n = g.len() as int;
    lemma_raised_stretches(g, body, n);
    let r = raising(g, body, n);
    let runs = raised_runs(g, body);
    if runs.contains((start, end)) {
        let k = choose|k: int| 0 <= k < runs.len() && runs[k] == (start, end);
        if k < r.done.len() {
            assert(r.done[k] == (start, end));
        }
    }
    if high_stretch(g, body, start as int, end as int) {
        if end < n {
            assert(r.done.contains((start, end)));
            let k = choose|k: int| 0 <= k < r.done.len() && r.done[k] == (start, end);
            assert(runs[k] == (start, end));
        } else {
            assert(set_high(g[n - 1], body));
            assert(r.start is Some);
            let from = r.start->0;
            if from < start {
                assert(set_high(g[start - 1], body));
            }
            if start < from {
                assert(set_high(g[from - 1], body));
            }
            assert(runs.last() == (start, end));
        }
    }
}

proof fn lemma_raised_stretches<S: Scalar>(g: Seq<PlacedGlyph<S>>, body: S, n: int)
    requires
        0 <= n <= g.len() <= usize::MAX,
    ensures
        ({
            let r = raising(g, body, n);
            &&& forall|k: int|
                0 <= k < r.done.len() ==> high_stretch(
                    g,
                    body,
                    (#[trigger] r.done[k]).0 as int,
                    r.done[k].1 as int,
                ) && r.done[k].1 < n
            &&& match r.start {
                Some(from) => {
                    &&& from < n
                    &&& forall|i: int| from <= i < n ==> set_high(#[trigger] g[i], body)
                    &&& from > 0 ==> !set_high(g[from - 1], body)
                },
                None => n > 0 ==> !set_high(g[n - 1], body),
            }
            &&& forall|s: usize, e: usize|
                high_stretch(g, body, s as int, e as int) && e < n ==> #[trigger] r.done.contains(
                    (s, e),
                )
        }),
    decreases n,
{
    if n > 0 {
        lemma_raised_stretches(g, body, n - 1);
        let before = raising(g, body, n - 1);
        let r = raising(g, body, n);
        assert(set_high(g[n - 1], body) == raised(g[n - 1], body));
        assert forall|s: usize, e: usize|
            high_stretch(g, body, s as int, e as int) && e < n implies #[trigger] r.done.contains(
            (s, e),
        ) by {
            if e < n - 1 {
                assert(before.done.contains((s, e)));
                let k = choose|k: int| 0 <= k < before.done.len() && before.done[k] == (s, e);
                assert(r.done[k] == (s, e));
            } else {
                assert(!set_high(g[n - 1], body));
                assert(set_high(g[e - 1], body));
                let from = before.start->0;
                if from < s {
                    assert(set_high(g[s - 1], body));
                }
                if s < from {
                    assert(set_high(g[from - 1], body));
                }
                assert(r.done.last() == (s, e));
                assert(r.done[r.done.len() - 1] == (s, e));
            }
        }
    }
}

/// The text of a stretch of glyphs, end to end.
pub open spec fn spelt<S>(g: Seq<PlacedGlyph<S>>, from: int, to: int) -> Seq<char> {
    Seq::new(
        (to - from) as nat,
        |i: int|
            match g[from + i].text {
                Some(t) => t@,
                None => Seq::empty(),
            },
    ).flatten()
}

/// A note is linked to a superscript of another block whose text, white space
/// aside, is the note's marker. Where it is linked to none, there is none.
pub proof fn law_a_note_is_linked_to_its_marker<S: Scalar>(
    blocks: Seq<RegionModel<S>>,
    r: Seq<Rule<S>>,
    media: Rect<S>,
    k: int,
    b: int,
    i: int,
    start: usize,
    end: usize,
)
    requires
        0 <= k < notes_of(blocks, r, media).len(),
        blocks.len() <= usize::MAX,
        forall|b: int|
            0 <= b < blocks.len() ==> (#[trigger] blocks[b]).lines.len() <= usize::MAX,
        forall|b: int, i: int|
            0 <= b < blocks.len() && 0 <= i < blocks[b].lines.len() ==> (
            #[trigger] blocks[b].lines[i]).glyphs.len() <= usize::MAX,
    ensures
        ({
            let note = notes_of(blocks, r, media)[k];
            let marker = note.marker->0;
            match note.marker_site {
                Some(site) => {
                    let g = blocks[site.block as int].lines[site.line as int].glyphs;
                    &&& site.block < blocks.len() && site.block != note.block
                    &&& site.line < blocks[site.block as int].lines.len()
                    &&& high_stretch(
                        g,
                        size_of(blocks[site.block as int]),
                        site.start as int,
                        site.end as int,
                    )
                    &&& text::trimmed(spelt(g, site.start as int, site.end as int)) == marker
                },
                None => 0 <= b < blocks.len() && b != note.block && 0 <= i < blocks[b].lines.len()
                    && high_stretch(
                    blocks[b].lines[i].glyphs,
                    size_of(blocks[b]),
                    start as int,
                    end as int,
                ) ==> text::trimmed(spelt(blocks[b].lines[i].glyphs, start as int, end as int))
                    != marker,
            }
        }),
{
    let notes = notes_at(blocks, r, media, blocks.len() as int);
    let j = lemma_kept_notes(blocks, notes, notes.len() as int, k);
    lemma_notes_at(blocks, r, media, blocks.len() as int, j);
    let note = notes_of(blocks, r, media)[k];
    lemma_block_marked(blocks, note.block, note.marker->0, 0, b, i, start, end);
}

proof fn lemma_spelt<S>(g: Seq<PlacedGlyph<S>>, from: int, to: int)
    requires
        0 <= from <= to <= g.len(),
    ensures
        stretch_text(g, from, to) == spelt(g, from, to),
    decreases to - from,
{
    let part = |i: int|
        match g[from + i].text {
            Some(t) => t@,
            None => Seq::<char>::empty(),
        };
    let all = Seq::new((to - from) as nat, part);
    if from < to {
        lemma_spelt(g, from, to - 1);
        let before = Seq::new((to - 1 - from) as nat, part);
        let last = part(to - 1 - from);
        assert(all =~= before.push(last));
        before.lemma_flatten_push(last);
    } else {
        assert(all =~= Seq::<Seq<char>>::empty());
    }
}

proof fn lemma_run_marked<S>(
    g: Seq<PlacedGlyph<S>>,
    runs: Seq<(usize, usize)>,
    marker: Seq<char>,
    k: int,
)
    requires
        0 <= k <= runs.len(),
    ensures
        match run_marked(g, runs, marker, k) {
            Some(run) => runs.contains(run) && text::trimmed(
                stretch_text(g, run.0 as int, run.1 as int),
            ) == marker,
            None => forall|j: int|
                k <= j < runs.len() ==> text::trimmed(
                    stretch_text(g, (#[trigger] runs[j]).0 as int, runs[j].1 as int),
                ) != marker,
        },
    decreases runs.len() - k,
{
    if k < runs.len() {
        assert(runs.contains(runs[k]));
        lemma_run_marked(g, runs, marker, k + 1);
    }
}

proof fn lemma_line_marked<S: Scalar>(
    l: Seq<LineModel<S>>,
    block: usize,
    body: S,
    marker: Seq<char>,
    from: int,
    i: int,
    start: usize,
    end: usize,
)
    requires
        0 <= from <= l.len() <= usize::MAX,
        forall|i: int| 0 <= i < l.len() ==> (#[trigger] l[i]).glyphs.len() <= usize::MAX,
    ensures
        match line_marked(l, block, body, marker, from) {
            Some(site) => {
                &&& site.block == block && site.line < l.len()
                &&& high_stretch(
                    l[site.line as int].glyphs,
                    body,
                    site.start as int,
                    site.end as int,
                )
                &&& text::trimmed(
                    spelt(l[site.line as int].glyphs, site.start as int, site.end as int),
                ) == marker
            },
            None => from <= i < l.len() && high_stretch(
                l[i].glyphs,
                body,
                start as int,
                end as int,
            ) ==> text::trimmed(spelt(l[i].glyphs, start as int, end as int)) != marker,
        },
    decreases l.len() - from,
{
    if from < l.len() {
        lemma_line_marked(l, block, body, marker, from + 1, i, start, end);
        let g = l[from].glyphs;
        let runs = raised_runs(g, body);
        lemma_run_marked(g, runs, marker, 0);
        match run_marked(g, runs, marker, 0) {
            Some(run) => {
                law_superscripts_are_the_stretches_set_high(g, body, run.0, run.1);
                lemma_spelt(g, run.0 as int, run.1 as int);
            },
            None => {
                if i == from && high_stretch(g, body, start as int, end as int) {
                    law_superscripts_are_the_stretches_set_high(g, body, start, end);
                    lemma_spelt(g, start as int, end as int);
                    let q = choose|q: int| 0 <= q < runs.len() && runs[q] == (start, end);
                    assert(runs[q].0 == start);
                }
            },
        }
    }
}

proof fn lemma_block_marked<S: Scalar>(
    blocks: Seq<RegionModel<S>>,
    note: int,
    marker: Seq<char>,
    from: int,
    b: int,
    i: int,
    start: usize,
    end: usize,
)
    requires
        0 <= from <= blocks.len() <= usize::MAX,
        forall|b: int|
            0 <= b < blocks.len() ==> (#[trigger] blocks[b]).lines.len() <= usize::MAX,
        forall|b: int, i: int|
            0 <= b < blocks.len() && 0 <= i < blocks[b].lines.len() ==> (
            #[trigger] blocks[b].lines[i]).glyphs.len() <= usize::MAX,
    ensures
        match block_marked(blocks, note, marker, from) {
            Some(site) => {
                let g = blocks[site.block as int].lines[site.line as int].glyphs;
                &&& site.block < blocks.len() && site.block != note
                &&& site.line < blocks[site.block as int].lines.len()
                &&& high_stretch(
                    g,
                    size_of(blocks[site.block as int]),
                    site.start as int,
                    site.end as int,
                )
                &&& text::trimmed(spelt(g, site.start as int, site.end as int)) == marker
            },
            None => from <= b < blocks.len() && b != note && 0 <= i < blocks[b].lines.len()
                && high_stretch(
                blocks[b].lines[i].glyphs,
                size_of(blocks[b]),
                start as int,
                end as int,
            ) ==> text::trimmed(spelt(blocks[b].lines[i].glyphs, start as int, end as int))
                != marker,
        },
    decreases blocks.len() - from,
{
    if from < blocks.len() {
        lemma_block_marked(blocks, note, marker, from + 1, b, i, start, end);
        let block = blocks[from];
        assert forall|i: int| 0 <= i < block.lines.len() implies (
        #[trigger] block.lines[i]).glyphs.len() <= usize::MAX by {
            assert(blocks[from].lines[i].glyphs.len() <= usize::MAX);
        }
        lemma_line_marked(
            block.lines,
            from as usize,
            size_of(block),
            marker,
            0,
            i,
            start,
            end,
        );
    }
}

/// Whether a block could be a footnote: it lies in the lower third of the page,
/// holds lines, is set in type of some size, of at most nine tenths of the
/// page's, and its text starts with a digit or one of the traditional symbols,
/// white space aside.
pub open spec fn looks_like_a_note<S: Scalar>(
    blocks: Seq<RegionModel<S>>,
    media: Rect<S>,
    i: int,
) -> bool {
    let height = media.y1.spec_minus(media.y0);
    let none = S::spec_ratio(0, 1);
    let t = text::trimmed(
        regions::rows_text(blocks[i].lines, blocks[i].lines.len() as int),
    );
    &&& !blocks[i].bbox.y0.spec_lt(
        media.y1.spec_minus(height.spec_over(S::spec_ratio(3, 1))),
    )
    &&& blocks[i].lines.len() > 0
    &&& !size_of(blocks[i]).spec_le(none)
    &&& !page_size(blocks).spec_times(S::spec_ratio(9, 10)).spec_lt(size_of(blocks[i]))
    &&& t.len() > 0 && ('0' <= t[0] <= '9' || t[0] == '*' || t[0] == '\u{2020}' || t[0]
        == '\u{2021}' || t[0] == '\u{a7}' || t[0] == '\u{b6}' || t[0] == '#')
}

/// The footnotes of a page are blocks that look like one. Every block that looks
/// like one and is long enough to be a sentence is a footnote.
pub proof fn law_what_reads_as_a_note_is_one<S: Scalar>(
    blocks: Seq<RegionModel<S>>,
    r: Seq<Rule<S>>,
    media: Rect<S>,
    k: int,
    i: int,
)
    ensures
        0 <= k < notes_of(blocks, r, media).len() ==> {
            let note = notes_of(blocks, r, media)[k];
            0 <= note.block < blocks.len() && looks_like_a_note(blocks, media, note.block)
        },
        0 <= i < blocks.len() && looks_like_a_note(blocks, media, i) && !page_size(blocks).spec_le(
            S::spec_ratio(0, 1),
        ) && words_spelled(blocks[i].lines, blocks[i].lines.len() as int) >= 3 ==> exists|k: int|
            0 <= k < notes_of(blocks, r, media).len() && (#[trigger] notes_of(
                blocks,
                r,
                media,
            )[k]).block == i,
{
    let n = blocks.len() as int;
    let notes = notes_at(blocks, r, media, n);
    if 0 <= k < notes_of(blocks, r, media).len() {
        let j = lemma_kept_notes(blocks, notes, notes.len() as int, k);
        lemma_notes_at(blocks, r, media, n, j);
        lemma_marked_start(region_text(blocks[notes[j].block]));
    }
    if 0 <= i < n && looks_like_a_note(blocks, media, i) && !page_size(blocks).spec_le(
        S::spec_ratio(0, 1),
    ) && words_spelled(blocks[i].lines, blocks[i].lines.len() as int) >= 3 {
        lemma_marked_start(region_text(blocks[i]));
        assert(note_at(blocks, r, media, i) is Some);
        let j = lemma_noted(blocks, r, media, n, i);
        lemma_kept(blocks, notes, notes.len() as int, j);
    }
}

proof fn lemma_marked_start(t: Seq<char>)
    ensures
        marker_of(t) is Some <==> {
            let u = text::trimmed(t);
            u.len() > 0 && (digit(u[0]) || symbol(u[0]))
        },
{
    text::lemma_trimmed_ends(t);
}

proof fn lemma_noted<S: Scalar>(
    blocks: Seq<RegionModel<S>>,
    r: Seq<Rule<S>>,
    media: Rect<S>,
    n: int,
    i: int,
) -> (j: int)
    requires
        0 <= i < n <= blocks.len(),
        note_at(blocks, r, media, i) is Some,
    ensures
        0 <= j < notes_at(blocks, r, media, n).len(),
        notes_at(blocks, r, media, n)[j].block == i,
    decreases n,
{
    if i == n - 1 {
        notes_at(blocks, r, media, n).len() - 1
    } else {
        lemma_noted(blocks, r, media, n - 1, i)
    }
}

proof fn lemma_kept<S: Scalar>(
    blocks: Seq<RegionModel<S>>,
    notes: Seq<FootnoteModel<S>>,
    n: int,
    j: int,
)
    requires
        0 <= j < n <= notes.len(),
        stands(blocks, notes[j]),
    ensures
        exists|k: int|
            0 <= k < kept_notes(blocks, notes, n).len() && (#[trigger] kept_notes(
                blocks,
                notes,
                n,
            )[k]).block == notes[j].block,
    decreases n,
{
    let after = kept_notes(blocks, notes, n);
    if j == n - 1 {
        assert(after[after.len() - 1].block == notes[j].block);
    } else {
        lemma_kept(blocks, notes, n - 1, j);
        let before = kept_notes(blocks, notes, n - 1);
        let k = choose|k: int|
            0 <= k < before.len() && (#[trigger] before[k]).block == notes[j].block;
        assert(after[k].block == notes[j].block);
    }
}

/// A footnote is separated by a rule exactly where a horizontal rule above it,
/// within 15% of the page's height, is at most half as long as the text is wide.
pub proof fn law_a_short_rule_above_separates<S: Scalar>(
    blocks: Seq<RegionModel<S>>,
    r: Seq<Rule<S>>,
    media: Rect<S>,
    k: int,
)
    requires
        0 <= k < notes_of(blocks, r, media).len(),
    ensures
        ({
            let note = notes_of(blocks, r, media)[k];
            let height = media.y1.spec_minus(media.y0);
            let width = text_width(blocks);
            note.separated_by_rule <==> exists|i: int|
                {
                    let rule = #[trigger] r[i];
                    let at = rule.bbox.y0.spec_plus(rule.bbox.y1).spec_over(S::spec_ratio(2, 1));
                    &&& 0 <= i < r.len() && rule.horizontal
                    &&& at.spec_lt(note.bbox.y0)
                    &&& note.bbox.y0.spec_minus(
                        height.spec_times(S::spec_ratio(15, 100)),
                    ).spec_lt(at)
                    &&& rule.bbox.x1.spec_minus(rule.bbox.x0).spec_le(
                        width.spec_times(S::spec_ratio(1, 2)),
                    )
                }
        }),
{
    let notes = notes_at(blocks, r, media, blocks.len() as int);
    let j = lemma_kept_notes(blocks, notes, notes.len() as int, k);
    lemma_notes_at(blocks, r, media, blocks.len() as int, j);
    let note = notes_of(blocks, r, media)[k];
    let height = media.y1.spec_minus(media.y0);
    let width = text_width(blocks);
    assert forall|i: int| 0 <= i < r.len() implies separates(
        #[trigger] r[i],
        note.bbox,
        height,
        width,
    ) == ({
        let rule = r[i];
        let at = rule.bbox.y0.spec_plus(rule.bbox.y1).spec_over(S::spec_ratio(2, 1));
        &&& rule.horizontal
        &&& at.spec_lt(note.bbox.y0)
        &&& note.bbox.y0.spec_minus(height.spec_times(S::spec_ratio(15, 100))).spec_lt(at)
        &&& rule.bbox.x1.spec_minus(rule.bbox.x0).spec_le(width.spec_times(S::spec_ratio(1, 2)))
    }) by {}
}

/// The text of a page is as wide as from the leftmost of its blocks to the
/// rightmost.
pub proof fn law_the_text_is_as_wide_as_its_blocks<S: Scalar>(
    blocks: Seq<RegionModel<S>>,
    left: int,
    right: int,
)
    requires
        scalar::orderly::<S>(),
        0 <= left < blocks.len(),
        0 <= right < blocks.len(),
        forall|i: int|
            0 <= i < blocks.len() ==> blocks[left].bbox.x0.spec_le((#[trigger] blocks[i]).bbox.x0)
                && blocks[i].bbox.x1.spec_le(blocks[right].bbox.x1),
    ensures
        text_width(blocks) == blocks[right].bbox.x1.spec_minus(
            blocks[left].bbox.x0,
        ).spec_greatest(S::spec_ratio(0, 1)),
{
    let a = block_lefts(blocks);
    let b = block_rights(blocks);
    stats::law_the_least_is_a_lower_bound(a);
    stats::law_the_greatest_is_an_upper_bound(b);
    let least = stats::least_of(a, S::spec_highest(), a.len() as int);
    let most = stats::greatest_of(b, S::spec_lowest(), b.len() as int);
    let i = choose|i: int| 0 <= i < a.len() && a[i] == least;
    let j = choose|j: int| 0 <= j < b.len() && b[j] == most;
    assert(least.spec_le(a[left]) && most == b[j] && b[right].spec_le(most));
    assert(blocks[left].bbox.x0.spec_le(blocks[i].bbox.x0));
    assert(blocks[j].bbox.x1.spec_le(blocks[right].bbox.x1));
    scalar::lemma_order(least, a[left], least);
    scalar::lemma_order(most, b[right], most);
}

/// The sizes of lines are those of the lines that hold glyphs, in order.
pub proof fn law_sizes_are_of_filled_lines<S>(l: Seq<LineModel<S>>, n: int)
    requires
        0 <= n <= l.len(),
    ensures
        filled_sizes(l, n) == l.take(n).filter(
            |x: LineModel<S>| x.glyphs.len() > 0,
        ).map_values(|x: LineModel<S>| x.size),
    decreases n,
{
    reveal(Seq::filter);
    let filled = |x: LineModel<S>| x.glyphs.len() > 0;
    let size = |x: LineModel<S>| x.size;
    if n > 0 {
        law_sizes_are_of_filled_lines(l, n - 1);
        assert(l.take(n).drop_last() =~= l.take(n - 1));
        assert(l.take(n).last() == l[n - 1]);
        let front = l.take(n - 1).filter(filled);
        if filled(l[n - 1]) {
            assert(front.push(l[n - 1]).map_values(size) =~= front.map_values(size).push(
                l[n - 1].size,
            ));
        }
    } else {
        assert(l.take(0) =~= Seq::empty());
        assert(l.take(0).filter(filled).map_values(size) =~= Seq::empty());
    }
}

} // verus!
