use vstd::prelude::*;

use crate::text::{is_digit, is_space, push_char, trim, trim_spec};

verus! {

/// A closed interval of the linear code space (`letter * 100 + number`, `A00` being 0 and
/// `E99` being 499) that names one opening family.
#[derive(Clone, Copy, Debug, PartialEq, Eq)]
pub struct EcoRange {
    pub start: u16,
    pub end: u16,
}

/// The family table: the interval that holds code `n` of the code space. The intervals
/// are ordered, contiguous and cover the whole space.
pub open spec fn eco_range_of(n: int) -> (int, int) {
    if n <= 0 {
        (0, 0)
    } else if n <= 1 {
        (1, 1)
    } else if n <= 3 {
        (2, 3)
    } else if n <= 9 {
        (4, 9)
    } else if n <= 39 {
        (10, 39)
    } else if n <= 41 {
        (40, 41)
    } else if n <= 42 {
        (42, 42)
    } else if n <= 44 {
        (43, 44)
    } else if n <= 46 {
        (45, 46)
    } else if n <= 47 {
        (47, 47)
    } else if n <= 49 {
        (48, 49)
    } else if n <= 50 {
        (50, 50)
    } else if n <= 52 {
        (51, 52)
    } else if n <= 55 {
        (53, 55)
    } else if n <= 56 {
        (56, 56)
    } else if n <= 59 {
        (57, 59)
    } else if n <= 79 {
        (60, 79)
    } else if n <= 99 {
        (80, 99)
    } else if n <= 100 {
        (100, 100)
    } else if n <= 101 {
        (101, 101)
    } else if n <= 105 {
        (102, 105)
    } else if n <= 106 {
        (106, 106)
    } else if n <= 109 {
        (107, 109)
    } else if n <= 119 {
        (110, 119)
    } else if n <= 199 {
        (120, 199)
    } else if n <= 219 {
        (200, 219)
    } else if n <= 220 {
        (220, 220)
    } else if n <= 222 {
        (221, 222)
    } else if n <= 224 {
        (223, 224)
    } else if n <= 229 {
        (225, 229)
    } else if n <= 239 {
        (230, 239)
    } else if n <= 240 {
        (240, 240)
    } else if n <= 241 {
        (241, 241)
    } else if n <= 243 {
        (242, 243)
    } else if n <= 244 {
        (244, 244)
    } else if n <= 245 {
        (245, 245)
    } else if n <= 246 {
        (246, 246)
    } else if n <= 249 {
        (247, 249)
    } else if n <= 250 {
        (250, 250)
    } else if n <= 252 {
        (251, 252)
    } else if n <= 254 {
        (253, 254)
    } else if n <= 259 {
        (255, 259)
    } else if n <= 299 {
        (260, 299)
    } else if n <= 300 {
        (300, 300)
    } else if n <= 301 {
        (301, 301)
    } else if n <= 302 {
        (302, 302)
    } else if n <= 303 {
        (303, 303)
    } else if n <= 305 {
        (304, 305)
    } else if n <= 306 {
        (306, 306)
    } else if n <= 309 {
        (307, 309)
    } else if n <= 315 {
        (310, 315)
    } else if n <= 316 {
        (316, 316)
    } else if n <= 319 {
        (317, 319)
    } else if n <= 329 {
        (320, 329)
    } else if n <= 342 {
        (330, 342)
    } else if n <= 349 {
        (343, 349)
    } else if n <= 369 {
        (350, 369)
    } else if n <= 379 {
        (370, 379)
    } else if n <= 399 {
        (380, 399)
    } else if n <= 400 {
        (400, 400)
    } else if n <= 409 {
        (401, 409)
    } else if n <= 410 {
        (410, 410)
    } else if n <= 411 {
        (411, 411)
    } else if n <= 419 {
        (412, 419)
    } else if n <= 459 {
        (420, 459)
    } else {
        (460, 499)
    }
}

fn range_of(num: u16) -> (r: EcoRange)
    ensures
        (r.start as int, r.end as int) == eco_range_of(num as int),
{
    if num <= 0 {
        EcoRange { start: 0, end: 0 }
    } else if num <= 1 {
        EcoRange { start: 1, end: 1 }
    } else if num <= 3 {
        EcoRange { start: 2, end: 3 }
    } else if num <= 9 {
        EcoRange { start: 4, end: 9 }
    } else if num <= 39 {
        EcoRange { start: 10, end: 39 }
    } else if num <= 41 {
        EcoRange { start: 40, end: 41 }
    } else if num <= 42 {
        EcoRange { start: 42, end: 42 }
    } else if num <= 44 {
        EcoRange { start: 43, end: 44 }
    } else if num <= 46 {
        EcoRange { start: 45, end: 46 }
    } else if num <= 47 {
        EcoRange { start: 47, end: 47 }
    } else if num <= 49 {
        EcoRange { start: 48, end: 49 }
    } else if num <= 50 {
        EcoRange { start: 50, end: 50 }
    } else if num <= 52 {
        EcoRange { start: 51, end: 52 }
    } else if num <= 55 {
        EcoRange { start: 53, end: 55 }
    } else if num <= 56 {
        EcoRange { start: 56, end: 56 }
    } else if num <= 59 {
        EcoRange { start: 57, end: 59 }
    } else if num <= 79 {
        EcoRange { start: 60, end: 79 }
    } else if num <= 99 {
        EcoRange { start: 80, end: 99 }
    } else if num <= 100 {
        EcoRange { start: 100, end: 100 }
    } else if num <= 101 {
        EcoRange { start: 101, end: 101 }
    } else if num <= 105 {
        EcoRange { start: 102, end: 105 }
    } else if num <= 106 {
        EcoRange { start: 106, end: 106 }
    } else if num <= 109 {
        EcoRange { start: 107, end: 109 }
    } else if num <= 119 {
        EcoRange { start: 110, end: 119 }
    } else if num <= 199 {
        EcoRange { start: 120, end: 199 }
    } else if num <= 219 {
        EcoRange { start: 200, end: 219 }
    } else if num <= 220 {
        EcoRange { start: 220, end: 220 }
    } else if num <= 222 {
        EcoRange { start: 221, end: 222 }
    } else if num <= 224 {
        EcoRange { start: 223, end: 224 }
    } else if num <= 229 {
        EcoRange { start: 225, end: 229 }
    } else if num <= 239 {
        EcoRange { start: 230, end: 239 }
    } else if num <= 240 {
        EcoRange { start: 240, end: 240 }
    } else if num <= 241 {
        EcoRange { start: 241, end: 241 }
    } else if num <= 243 {
        EcoRange { start: 242, end: 243 }
    } else if num <= 244 {
        EcoRange { start: 244, end: 244 }
    } else if num <= 245 {
        EcoRange { start: 245, end: 245 }
    } else if num <= 246 {
        EcoRange { start: 246, end: 246 }
    } else if num <= 249 {
        EcoRange { start: 247, end: 249 }
    } else if num <= 250 {
        EcoRange { start: 250, end: 250 }
    } else if num <= 252 {
        EcoRange { start: 251, end: 252 }
    } else if num <= 254 {
        EcoRange { start: 253, end: 254 }
    } else if num <= 259 {
        EcoRange { start: 255, end: 259 }
    } else if num <= 299 {
        EcoRange { start: 260, end: 299 }
    } else if num <= 300 {
        EcoRange { start: 300, end: 300 }
    } else if num <= 301 {
        EcoRange { start: 301, end: 301 }
    } else if num <= 302 {
        EcoRange { start: 302, end: 302 }
    } else if num <= 303 {
        EcoRange { start: 303, end: 303 }
    } else if num <= 305 {
        EcoRange { start: 304, end: 305 }
    } else if num <= 306 {
        EcoRange { start: 306, end: 306 }
    } else if num <= 309 {
        EcoRange { start: 307, end: 309 }
    } else if num <= 315 {
        EcoRange { start: 310, end: 315 }
    } else if num <= 316 {
        EcoRange { start: 316, end: 316 }
    } else if num <= 319 {
        EcoRange { start: 317, end: 319 }
    } else if num <= 329 {
        EcoRange { start: 320, end: 329 }
    } else if num <= 342 {
        EcoRange { start: 330, end: 342 }
    } else if num <= 349 {
        EcoRange { start: 343, end: 349 }
    } else if num <= 369 {
        EcoRange { start: 350, end: 369 }
    } else if num <= 379 {
        EcoRange { start: 370, end: 379 }
    } else if num <= 399 {
        EcoRange { start: 380, end: 399 }
    } else if num <= 400 {
        EcoRange { start: 400, end: 400 }
    } else if num <= 409 {
        EcoRange { start: 401, end: 409 }
    } else if num <= 410 {
        EcoRange { start: 410, end: 410 }
    } else if num <= 411 {
        EcoRange { start: 411, end: 411 }
    } else if num <= 419 {
        EcoRange { start: 412, end: 419 }
    } else if num <= 459 {
        EcoRange { start: 420, end: 459 }
    } else {
        EcoRange { start: 460, end: 499 }
    }
}

pub open spec fn letter_of(i: int) -> char {
    if i == 0 {
        'A'
    } else if i == 1 {
        'B'
    } else if i == 2 {
        'C'
    } else if i == 3 {
        'D'
    } else {
        'E'
    }
}

pub open spec fn digit_of(d: int) -> char {
    if d == 0 {
        '0'
    } else if d == 1 {
        '1'
    } else if d == 2 {
        '2'
    } else if d == 3 {
        '3'
    } else if d == 4 {
        '4'
    } else if d == 5 {
        '5'
    } else if d == 6 {
        '6'
    } else if d == 7 {
        '7'
    } else if d == 8 {
        '8'
    } else {
        '9'
    }
}

/// The three-character text of code `n`, such as `B22`.
pub open spec fn code_text(n: int) -> Seq<char> {
    seq![letter_of(n / 100), digit_of((n % 100) / 10), digit_of(n % 10)]
}

/// The label of an interval: its one code, or its first and last code joined by `-`.
pub open spec fn range_label(r: (int, int)) -> Seq<char> {
    if r.0 == r.1 {
        code_text(r.0)
    } else {
        code_text(r.0) + seq!['-'] + code_text(r.1)
    }
}

/// The label of a code that is malformed.
pub open spec fn unknown_label() -> Seq<char> {
    seq!['U', '0', '0']
}

/// The index of an opening letter, either case, `A` to `E`.
pub open spec fn letter_index(c: char) -> Option<int> {
    if 'A' <= c && c <= 'E' {
        Some(c as int - 'A' as int)
    } else if 'a' <= c && c <= 'e' {
        Some(c as int - 'a' as int)
    } else {
        None
    }
}

pub open spec fn digit_value(c: char) -> int {
    c as int - '0' as int
}

/// The position in the code space of a code text, once white space is trimmed:
/// one letter `A`-`E` (either case) and two ASCII digits.
pub open spec fn parse_code_spec(s: Seq<char>) -> Option<int> {
    let t = trim_spec(s);
    if t.len() == 3 && letter_index(t[0]) is Some && is_digit(t[1]) && is_digit(t[2]) {
        Some(letter_index(t[0])->0 * 100 + digit_value(t[1]) * 10 + digit_value(t[2]))
    } else {
        None
    }
}

/// The family label of a code text.
pub open spec fn eco_label_spec(s: Seq<char>) -> Seq<char> {
    match parse_code_spec(s) {
        Some(n) => range_label(eco_range_of(n)),
        None => unknown_label(),
    }
}

fn parse_eco_code(s: &str) -> (r: Option<u16>)
    ensures
        match r {
            Some(n) => parse_code_spec(s@) == Some(n as int) && n < 500,
            None => parse_code_spec(s@) is None,
        },
{
    let t = trim(s);
    if t.unicode_len() != 3 {
        return None;
    }
    let letter = t.get_char(0);
    let d1 = t.get_char(1);
    let d2 = t.get_char(2);
    let li: u16 = if 'A' <= letter && letter <= 'E' {
        (letter as u32 - 'A' as u32) as u16
    } else if 'a' <= letter && letter <= 'e' {
        (letter as u32 - 'a' as u32) as u16
    } else {
        return None;
    };
    if !('0' <= d1 && d1 <= '9' && '0' <= d2 && d2 <= '9') {
        return None;
    }
    let v1 = (d1 as u32 - '0' as u32) as u16;
    let v2 = (d2 as u32 - '0' as u32) as u16;
    Some(li * 100 + v1 * 10 + v2)
}

fn digit_char(d: u16) -> (c: char)
    requires
        d < 10,
    ensures
        c == digit_of(d as int),
{
    if d == 0 {
        '0'
    } else if d == 1 {
        '1'
    } else if d == 2 {
        '2'
    } else if d == 3 {
        '3'
    } else if d == 4 {
        '4'
    } else if d == 5 {
        '5'
    } else if d == 6 {
        '6'
    } else if d == 7 {
        '7'
    } else if d == 8 {
        '8'
    } else {
        '9'
    }
}

fn push_code(s: &mut String, n: u16)
    requires
        n < 500,
    ensures
        final(s)@ == old(s)@ + code_text(n as int),
{
    let i = n / 100;
    let letter = if i == 0 {
        'A'
    } else if i == 1 {
        'B'
    } else if i == 2 {
        'C'
    } else if i == 3 {
        'D'
    } else {
        'E'
    };
    push_char(s, letter);
    push_char(s, digit_char((n % 100) / 10));
    push_char(s, digit_char(n % 10));
    assert(s@ =~= old(s)@ + code_text(n as int));
}

impl EcoRange {
    /// The label of the interval, such as `B20-B99` or `A47`.
    pub fn label(&self) -> (r: String)
        requires
            self.start < 500,
            self.end < 500,
        ensures
            r@ == range_label((self.start as int, self.end as int)),
    {
        let mut s = String::new();
        push_code(&mut s, self.start);
        if self.start != self.end {
            push_char(&mut s, '-');
            push_code(&mut s, self.end);
        }
        assert(s@ =~= range_label((self.start as int, self.end as int)));
        s
    }
}

/// The family label of an opening code (`B45` gives `B20-B99`); `U00` for a malformed code.
pub fn label_for_code(eco: &str) -> (r: String)
    ensures
        r@ == eco_label_spec(eco@),
{
    match parse_eco_code(eco) {
        Some(num) => {
            let range = range_of(num);
            range.label()
        },
        None => {
            let mut s = String::new();
            push_char(&mut s, 'U');
            push_char(&mut s, '0');
            push_char(&mut s, '0');
            assert(s@ =~= unknown_label());
            s
        },
    }
}

proof fn lemma_code_text_injective(a: int, b: int)
    requires
        0 <= a < 500,
        0 <= b < 500,
        code_text(a) == code_text(b),
    ensures
        a == b,
{
    assert(code_text(a)[0] == code_text(b)[0]);
    assert(code_text(a)[1] == code_text(b)[1]);
    assert(code_text(a)[2] == code_text(b)[2]);
}

/// Every code text reads back as its own position in the code space.
pub proof fn lemma_code_text_parses(n: int)
    requires
        0 <= n < 500,
    ensures
        parse_code_spec(code_text(n)) == Some(n),
{
    let t = code_text(n);
    assert(!is_space(t[0]) && !is_space(t[1]) && !is_space(t[2]));
    assert(trim_spec(t) =~= t) by {
        reveal_with_fuel(crate::text::skip_space, 2);
        reveal_with_fuel(crate::text::drop_space, 2);
        assert(t.subrange(0, 3) =~= t);
    }
}

/// Coverage of the family table: every code `n` lies in the interval that the table gives
/// for it, every code `m` of that interval is classified with that interval's label, and
/// the code just past the interval's end belongs to the next interval, whose label differs.
pub proof fn lemma_eco_ranges_cover(n: int, m: int)
    requires
        0 <= n < 500,
    ensures
        eco_range_of(n).0 <= n <= eco_range_of(n).1,
        0 <= eco_range_of(n).0,
        eco_range_of(n).1 < 500,
        eco_range_of(n).0 <= m <= eco_range_of(n).1 ==> eco_range_of(m) == eco_range_of(n)
            && eco_label_spec(code_text(m)) == range_label(eco_range_of(n)),
        eco_range_of(n).1 < 499 ==> eco_range_of(eco_range_of(n).1 + 1).0 == eco_range_of(n).1 + 1
            && range_label(eco_range_of(eco_range_of(n).1 + 1)) != range_label(eco_range_of(n)),
{
    let r = eco_range_of(n);
    if r.0 <= m <= r.1 {
        lemma_code_text_parses(m);
    }
    if r.1 < 499 {
        let q = eco_range_of(r.1 + 1);
        assert(q.0 == r.1 + 1);
        let la = range_label(r);
        let lb = range_label(q);
        if la == lb {
            assert(la.subrange(0, 3) =~= code_text(r.0));
            assert(lb.subrange(0, 3) =~= code_text(q.0));
            lemma_code_text_injective(r.0, q.0);
        }
    }
}

} // verus!
