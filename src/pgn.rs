use vstd::prelude::*;

use crate::eco::{eco_label_spec, label_for_code, unknown_label};
use crate::text::{all_digits, chars_of, find_char, find_from, is_digit, rfind_before, rfind_char, starts_with, trim, trim_spec};

verus! {

/// A tag and its value, as views.
pub type TagView = (Seq<char>, Seq<char>);

/// The tags of one game, in the order of their lines.
pub struct Headers {
    pub entries: Vec<(String, String)>,
}

impl View for Headers {
    type V = Seq<TagView>;

    open spec fn view(&self) -> Seq<TagView> {
        self.entries@.map_values(|e: (String, String)| (e.0@, e.1@))
    }
}

/// The views of a list of lines.
pub open spec fn lines_view(lines: Seq<String>) -> Seq<Seq<char>> {
    lines.map_values(|l: String| l@)
}

/// The value of the last entry for `tag`: a later line with the same tag overrides an earlier one.
pub open spec fn lookup(h: Seq<TagView>, tag: Seq<char>) -> Option<Seq<char>>
    decreases h.len(),
{
    if h.len() == 0 {
        None
    } else if h.last().0 == tag {
        Some(h.last().1)
    } else {
        lookup(h.drop_last(), tag)
    }
}

/// The tag and value of a line of the shape `[Tag "Value"]`, white space around it allowed:
/// the tag runs from the bracket to the first space, the value from the first quote after
/// that space to the last quote of the line.
pub open spec fn header_of(line: Seq<char>) -> Option<TagView> {
    let t = trim_spec(line);
    if t.len() > 0 && t[0] == '[' && t.last() == ']' {
        match find_from(t, ' ', 0) {
            None => None,
            Some(sp) => match (find_from(t, '"', sp), rfind_before(t, '"', t.len() as int)) {
                (Some(fq), Some(lq)) => if lq > fq {
                    Some((t.subrange(1, sp), t.subrange(fq + 1, lq)))
                } else {
                    None
                },
                _ => None,
            },
        }
    } else {
        None
    }
}

/// The tags of a game's lines, in order; lines of another shape are skipped.
pub open spec fn headers_spec(lines: Seq<Seq<char>>) -> Seq<TagView>
    decreases lines.len(),
{
    if lines.len() == 0 {
        Seq::empty()
    } else {
        let h = headers_spec(lines.drop_last());
        match header_of(lines.last()) {
            Some(p) => h.push(p),
            None => h,
        }
    }
}

fn parse_header_line(line: &str) -> (r: Option<(String, String)>)
    ensures
        match r {
            Some((t, v)) => header_of(line@) == Some((t@, v@)),
            None => header_of(line@) is None,
        },
{
    let t = trim(line);
    let n = t.unicode_len();
    if n == 0 {
        return None;
    }
    if t.get_char(0) != '[' || t.get_char(n - 1) != ']' {
        return None;
    }
    match find_char(t, ' ', 0) {
        None => None,
        Some(sp) => {
            let fq = find_char(t, '"', sp);
            let lq = rfind_char(t, '"');
            match (fq, lq) {
                (Some(fq), Some(lq)) => {
                    if lq > fq {
                        let tag = String::from_str(t.substring_char(1, sp));
                        let val = String::from_str(t.substring_char(fq + 1, lq));
                        Some((tag, val))
                    } else {
                        None
                    }
                },
                _ => None,
            }
        },
    }
}

/// The tags of a game: every line of the shape `[Tag "Value"]`, in order.
pub fn parse_headers(game_lines: &[String]) -> (r: Headers)
    ensures
        r@ == headers_spec(lines_view(game_lines@)),
{
    let mut entries: Vec<(String, String)> = Vec::new();
    let n = game_lines.len();
    let mut i: usize = 0;
    while i < n
        invariant
            n == game_lines@.len(),
            i <= n,
            (Headers { entries })@ == headers_spec(lines_view(game_lines@).take(i as int)),
        decreases n - i,
    {
        let ghost before = entries@;
        let parsed = parse_header_line(game_lines[i].as_str());
        proof {
            let ls = lines_view(game_lines@);
            assert(ls.take(i + 1).drop_last() =~= ls.take(i as int));
            assert(ls.take(i + 1).last() == game_lines@[i as int]@);
        }
        match parsed {
            Some(p) => {
                entries.push(p);
                assert((Headers { entries })@ =~= headers_spec(
                    lines_view(game_lines@).take(i + 1),
                )) by {
                    let hv = |e: (String, String)| (e.0@, e.1@);
                    assert(entries@ == before.push(p));
                    assert(entries@.map_values(hv) =~= before.map_values(hv).push(hv(p)));
                }
            },
            None => {
                assert((Headers { entries })@ =~= headers_spec(
                    lines_view(game_lines@).take(i + 1),
                ));
            },
        }
        i = i + 1;
    }
    assert(lines_view(game_lines@).take(n as int) =~= lines_view(game_lines@));
    Headers { entries }
}

impl Headers {
    /// The value of the last entry for `tag`.
    pub fn get(&self, tag: &str) -> (r: Option<&String>)
        ensures
            match r {
                Some(v) => lookup(self@, tag@) == Some(v@),
                None => lookup(self@, tag@) is None,
            },
    {
        let wanted = tag.to_owned();
        let mut j: usize = self.entries.len();
        assert(self@.take(j as int) =~= self@);
        while j > 0
            invariant
                wanted@ == tag@,
                j <= self.entries.len(),
                lookup(self@.take(j as int), tag@) == lookup(self@, tag@),
            decreases j,
        {
            proof {
                assert(self@.take(j as int).drop_last() =~= self@.take(j - 1));
                assert(self@.take(j as int).last() == self@[j - 1]);
            }
            if self.entries[j - 1].0 == wanted {
                return Some(&self.entries[j - 1].1);
            }
            j = j - 1;
        }
        proof {
            assert(self@.take(0) =~= Seq::<TagView>::empty());
        }
        None
    }
}

pub open spec fn event_prefix() -> Seq<char> {
    seq!['[', 'E', 'v', 'e', 'n', 't', ' ']
}

/// A line that opens a game record: it begins with `[Event `.
pub open spec fn is_game_start_spec(line: Seq<char>) -> bool {
    line.len() >= 7 && line.subrange(0, 7) == event_prefix()
}

/// Whether `line` opens a game record, that is, begins with `[Event `.
pub fn is_game_start(line: &str) -> (r: bool)
    ensures
        r == is_game_start_spec(line@),
{
    let p = "[Event ";
    proof {
        reveal_strlit("[Event ");
        assert(p@ =~= event_prefix());
    }
    starts_with(line, p)
}

pub open spec fn utc_date_tag() -> Seq<char> {
    seq!['U', 'T', 'C', 'D', 'a', 't', 'e']
}

pub open spec fn date_tag() -> Seq<char> {
    seq!['D', 'a', 't', 'e']
}

pub open spec fn unknown_month() -> Seq<char> {
    seq!['u', 'n', 'k', 'n', 'o', 'w', 'n']
}

/// The month `YYYY-MM` of a date `YYYY.MM.DD`: exactly four digits, a dot, two digits,
/// a dot and two digits.
pub open spec fn month_of_date(d: Seq<char>) -> Option<Seq<char>> {
    if d.len() == 10 && (forall|j: int| 0 <= j < 4 ==> is_digit(#[trigger] d[j])) && d[4] == '.'
        && is_digit(d[5]) && is_digit(d[6]) && d[7] == '.' && is_digit(d[8]) && is_digit(d[9]) {
        Some(d.subrange(0, 4) + seq!['-'] + d.subrange(5, 7))
    } else {
        None
    }
}

/// The month of a game: from `UTCDate` if present, else from `Date`; `unknown` when
/// there is no date or it is malformed.
pub open spec fn month_spec(h: Seq<TagView>) -> Seq<char> {
    let date = match lookup(h, utc_date_tag()) {
        Some(d) => Some(d),
        None => lookup(h, date_tag()),
    };
    match date {
        Some(d) => match month_of_date(d) {
            Some(m) => m,
            None => unknown_month(),
        },
        None => unknown_month(),
    }
}

/// The month `YYYY-MM` of a game, or `unknown`.
pub fn month_from_headers(h: &Headers) -> (r: String)
    ensures
        r@ == month_spec(h@),
{
    let utc = "UTCDate";
    let date = "Date";
    proof {
        reveal_strlit("UTCDate");
        reveal_strlit("Date");
        assert(utc@ =~= utc_date_tag());
        assert(date@ =~= date_tag());
    }
    let found = match h.get(utc) {
        Some(d) => Some(d),
        None => h.get(date),
    };
    if let Some(d) = found {
        let s = d.as_str();
        if s.unicode_len() == 10 && s.get_char(4) == '.' && s.get_char(7) == '.' && all_digits(
            s,
            0,
            4,
        ) && all_digits(s, 5, 7) && all_digits(s, 8, 10) {
            let mut m = String::from_str(s.substring_char(0, 4));
            let dash = "-";
            proof {
                reveal_strlit("-");
            }
            m.append(dash);
            m.append(s.substring_char(5, 7));
            assert(m@ =~= s@.subrange(0, 4) + seq!['-'] + s@.subrange(5, 7));
            return m;
        }
    }
    let u = "unknown";
    proof {
        reveal_strlit("unknown");
        assert(u@ =~= unknown_month());
    }
    String::from_str(u)
}

pub open spec fn eco_tag() -> Seq<char> {
    seq!['E', 'C', 'O']
}

/// The opening family of a game: the label of its `ECO` code, `U00` without one.
pub open spec fn eco_group_spec(h: Seq<TagView>) -> Seq<char> {
    match lookup(h, eco_tag()) {
        Some(code) => eco_label_spec(code),
        None => unknown_label(),
    }
}

/// The opening family label of a game.
pub fn eco_group_from_headers(h: &Headers) -> (r: String)
    ensures
        r@ == eco_group_spec(h@),
{
    let tag = "ECO";
    proof {
        reveal_strlit("ECO");
        assert(tag@ =~= eco_tag());
    }
    match h.get(tag) {
        Some(eco) => label_for_code(eco.as_str()),
        None => {
            let u = "U00";
            proof {
                reveal_strlit("U00");
                assert(u@ =~= unknown_label());
            }
            String::from_str(u)
        },
    }
}

pub open spec fn result_tag() -> Seq<char> {
    seq!['R', 'e', 's', 'u', 'l', 't']
}

/// The result text of a game: its `Result` value, `*` without one.
pub open spec fn result_spec(h: Seq<TagView>) -> Seq<char> {
    match lookup(h, result_tag()) {
        Some(r) => r,
        None => seq!['*'],
    }
}

/// The result text of a game, verbatim, or `*`.
pub fn result_from_headers(h: &Headers) -> (r: String)
    ensures
        r@ == result_spec(h@),
{
    let tag = "Result";
    proof {
        reveal_strlit("Result");
        assert(tag@ =~= result_tag());
    }
    match h.get(tag) {
        Some(v) => String::from_str(v.as_str()),
        None => {
            let star = "*";
            proof {
                reveal_strlit("*");
                assert(star@ =~= seq!['*']);
            }
            String::from_str(star)
        },
    }
}

/// The value of a string of ASCII digits.
pub open spec fn digits_value(s: Seq<char>) -> int
    decreases s.len(),
{
    if s.len() == 0 {
        0
    } else {
        digits_value(s.drop_last()) * 10 + (s.last() as int - '0' as int)
    }
}

/// What `str::parse::<u16>` accepts: an optional `+`, then one or more ASCII digits whose
/// value fits in 16 bits.
pub open spec fn decimal_u16(s: Seq<char>) -> Option<u16> {
    if s.len() > 0 && s[0] == '+' {
        digits_u16(s.drop_first())
    } else {
        digits_u16(s)
    }
}

/// The value of one or more ASCII digits, when it fits in 16 bits.
pub open spec fn digits_u16(d: Seq<char>) -> Option<u16> {
    if d.len() > 0 && (forall|j: int| 0 <= j < d.len() ==> is_digit(#[trigger] d[j]))
        && digits_value(d) <= u16::MAX {
        Some(digits_value(d) as u16)
    } else {
        None
    }
}

/// A digit string's value is never negative.
pub proof fn lemma_digits_value_nonneg(s: Seq<char>)
    requires
        forall|k: int| 0 <= k < s.len() ==> is_digit(#[trigger] s[k]),
    ensures
        digits_value(s) >= 0,
    decreases s.len(),
{
    if s.len() > 0 {
        lemma_digits_value_nonneg(s.drop_last());
    }
}

/// The value of an optional `+` and one or more ASCII digits, when it fits in 16 bits.
fn parse_u16(s: &str) -> (r: Option<u16>)
    ensures
        r == decimal_u16(s@),
{
    let cs = chars_of(s);
    let n = cs.len();
    let start: usize = if n > 0 && cs[0] == '+' {
        1
    } else {
        0
    };
    let ghost d = if s@.len() > 0 && s@[0] == '+' {
        s@.drop_first()
    } else {
        s@
    };
    assert(d =~= cs@.subrange(start as int, n as int));
    if start == n {
        assert(decimal_u16(s@) == digits_u16(d));
        return None;
    }
    // the value so far, capped just above the largest `u16`
    let mut v: u32 = 0;
    let mut i: usize = start;
    assert(cs@.subrange(start as int, start as int) =~= Seq::<char>::empty());
    while i < n
        invariant
            cs@ == s@,
            n == cs.len(),
            start < n,
            start <= i <= n,
            d == cs@.subrange(start as int, n as int),
            d == if s@.len() > 0 && s@[0] == '+' {
                s@.drop_first()
            } else {
                s@
            },
            forall|j: int| start <= j < i ==> is_digit(#[trigger] cs@[j]),
            v as int == if digits_value(cs@.subrange(start as int, i as int)) < 65536 {
                digits_value(cs@.subrange(start as int, i as int))
            } else {
                65536
            },
        decreases n - i,
    {
        let c = cs[i];
        if !('0' <= c && c <= '9') {
            assert(d[i - start] == cs@[i as int]);
            assert(!is_digit(d[i - start]));
            assert(0 <= i - start < d.len());
            assert(!(forall|j: int| 0 <= j < d.len() ==> is_digit(#[trigger] d[j])));
            assert(decimal_u16(s@) == digits_u16(d));
            return None;
        }
        proof {
            let pre = cs@.subrange(start as int, i as int);
            let nxt = cs@.subrange(start as int, i + 1);
            assert(nxt.drop_last() =~= pre);
            assert(nxt.last() == c);
            assert forall|z: int| 0 <= z < pre.len() implies is_digit(#[trigger] pre[z]) by {
                assert(pre[z] == cs@[start + z]);
            }
            lemma_digits_value_nonneg(pre);
        }
        v = v * 10 + (c as u32 - '0' as u32);
        if v > 65536 {
            v = 65536;
        }
        i = i + 1;
    }
    assert(cs@.subrange(start as int, n as int) == d);
    assert forall|z: int| 0 <= z < d.len() implies is_digit(#[trigger] d[z]) by {
        assert(d[z] == cs@[start + z]);
    }
    assert(decimal_u16(s@) == digits_u16(d));
    if v > 65535 {
        None
    } else {
        Some(v as u16)
    }
}

/// A rating read from an optional tag value; absent or unreadable gives none.
pub fn parse_elo(s: Option<&String>) -> (r: Option<u16>)
    ensures
        r == match s {
            Some(v) => decimal_u16(v@),
            None => None,
        },
{
    match s {
        Some(v) => parse_u16(v.as_str()),
        None => None,
    }
}

/// The bucket of a rating: its lower bound in steps of `size`; 0 without a rating or when
/// `size` is 0.
pub open spec fn bucket_spec(elo: Option<u16>, size: u16) -> u16 {
    match elo {
        Some(e) => if size > 0 {
            ((e as int / size as int) * size as int) as u16
        } else {
            0
        },
        None => 0,
    }
}

/// The rating bucket of `elo` for buckets of width `size`.
pub fn elo_bucket_with_size(elo: Option<u16>, size: u16) -> (r: u16)
    ensures
        r == bucket_spec(elo, size),
        elo is Some && size > 0 ==> r <= elo->0 && elo->0 - r < size,
{
    match elo {
        Some(e) => {
            if size > 0 {
                let q = e / size;
                assert(q * size <= e && e - q * size < size) by (nonlinear_arith)
                    requires
                        q == e / size,
                        size > 0,
                ;
                q * size
            } else {
                0
            }
        },
        None => 0,
    }
}

/// Bucketing a bucket again changes nothing.
pub proof fn lemma_bucket_idempotent(r: u16, s: u16)
    requires
        s > 0,
    ensures
        bucket_spec(Some(bucket_spec(Some(r), s)), s) == bucket_spec(Some(r), s),
{
    let q = r as int / s as int;
    assert(q * s <= r) by (nonlinear_arith)
        requires
            q == r as int / s as int,
            s > 0,
    ;
    assert(0 <= q);
    assert((q * s) / (s as int) == q) by {
        vstd::arithmetic::div_mod::lemma_div_by_multiple(q, s as int);
    }
}

} // verus!
