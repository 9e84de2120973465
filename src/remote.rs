use vstd::multiset::Multiset;
use vstd::prelude::*;

use crate::eco::digit_of;
use crate::pgn::{digits_value, lemma_digits_value_nonneg, lines_view};
use crate::text::{chars_of, is_digit, lemma_lex_asym, lemma_lex_le_trans, lex_less, lex_lt, push_char, trim, trim_spec};

verus! {

/// One month's archive to fetch.
pub struct PlanItem {
    /// The month, `YYYY-MM`.
    pub month: String,
    pub url: String,
}

/// The view of a plan item: (month, url).
pub type ItemView = (Seq<char>, Seq<char>);

impl View for PlanItem {
    type V = ItemView;

    open spec fn view(&self) -> ItemView {
        (self.month@, self.url@)
    }
}

pub open spec fn items_view(items: Seq<PlanItem>) -> Seq<ItemView> {
    items.map_values(|p: PlanItem| p@)
}

/// The pieces of a text between line feeds (one piece more than there are line feeds).
pub open spec fn pieces(s: Seq<char>) -> Seq<Seq<char>>
    decreases s.len(),
{
    if s.len() == 0 {
        seq![Seq::empty()]
    } else {
        let p = pieces(s.drop_last());
        if s.last() == '\n' {
            p.push(Seq::empty())
        } else {
            p.drop_last().push(p.last().push(s.last()))
        }
    }
}

proof fn lemma_pieces_nonempty(s: Seq<char>)
    ensures
        pieces(s).len() > 0,
    decreases s.len(),
{
    if s.len() > 0 {
        lemma_pieces_nonempty(s.drop_last());
    }
}

fn split_pieces(text: &str) -> (r: Vec<String>)
    ensures
        lines_view(r@) == pieces(text@),
{
    let cs = chars_of(text);
    let mut out: Vec<String> = Vec::new();
    let mut cur = String::new();
    let n = cs.len();
    let mut i: usize = 0;
    while i < n
        invariant
            n == cs@.len(),
            cs@ == text@,
            i <= n,
            lines_view(out@).push(cur@) == pieces(cs@.take(i as int)),
        decreases n - i,
    {
        proof {
            lemma_pieces_nonempty(cs@.take(i as int));
            assert(cs@.take(i + 1).drop_last() =~= cs@.take(i as int));
            assert(cs@.take(i + 1).last() == cs@[i as int]);
        }
        let c = cs[i];
        if c == '\n' {
            let ghost prev = lines_view(out@).push(cur@);
            let mut done = String::new();
            std::mem::swap(&mut done, &mut cur);
            out.push(done);
            assert(lines_view(out@).push(cur@) =~= prev.push(Seq::empty()));
        } else {
            let ghost prev = lines_view(out@).push(cur@);
            push_char(&mut cur, c);
            assert(lines_view(out@).push(cur@) =~= prev.drop_last().push(prev.last().push(c)));
        }
        i = i + 1;
    }
    assert(cs@.take(n as int) =~= cs@);
    out.push(cur);
    out
}

/// The month token that the archive pattern `(\d{4}-\d{2})\.pgn\.zst$` captures in a line.
pub uninterp spec fn month_token_of(line: Seq<char>) -> Option<Seq<char>>;

pub open spec fn archive_ext() -> Seq<char> {
    seq!['.', 'p', 'g', 'n', '.', 'z', 's', 't']
}

/// A line that ends in `?????.??.pgn.zst` with a `-` in the middle.
pub open spec fn archive_suffix(line: Seq<char>) -> bool {
    let n = line.len() as int;
    n >= 15 && line.subrange(n - 8, n) == archive_ext() && line[n - 11] == '-'
}

/// A line that ends in `YYYY-MM.pgn.zst` with ASCII digits.
pub open spec fn ascii_month_suffix(line: Seq<char>) -> bool {
    let n = line.len() as int;
    &&& archive_suffix(line)
    &&& forall|j: int| n - 15 <= j < n - 11 ==> is_digit(#[trigger] line[j])
    &&& is_digit(line[n - 10])
    &&& is_digit(line[n - 9])
}

/// Relies on `regex::Regex::captures` with the pattern `(\d{4}-\d{2})\.pgn\.zst$`: a match
/// ends the line with a `-` between four and two decimal digits and the extension, and
/// captures the seven characters before the extension.
#[verifier::external_body]
fn month_token(line: &str) -> (r: Option<String>)
    ensures
        r matches Some(m) ==> month_token_of(line@) == Some(m@),
        r is None ==> month_token_of(line@) is None,
        r matches Some(m) ==> archive_suffix(line@) && m@ == line@.subrange(
            line@.len() - 15,
            line@.len() - 8,
        ),
        ascii_month_suffix(line@) ==> r is Some,
{
    let re = regex::Regex::new(r"(\d{4}-\d{2})\.pgn\.zst$").unwrap();
    re.captures(line).and_then(|c| c.get(1)).map(|m| m.as_str().to_string())
}

/// The archives that index lines name, in the order of the lines: each line trimmed,
/// kept when it is not empty and its month token is found.
pub open spec fn items_of(lines: Seq<Seq<char>>) -> Seq<ItemView>
    decreases lines.len(),
{
    if lines.len() == 0 {
        Seq::empty()
    } else {
        let prev = items_of(lines.drop_last());
        let t = trim_spec(lines.last());
        if t.len() > 0 && month_token_of(t) is Some {
            prev.push((month_token_of(t)->0, t))
        } else {
            prev
        }
    }
}

/// The archives that an index text names.
pub open spec fn index_items(text: Seq<char>) -> Seq<ItemView> {
    items_of(pieces(text))
}

/// Items ordered by month, oldest first.
pub open spec fn sorted_by_month(s: Seq<ItemView>) -> bool {
    forall|i: int, j: int| 0 <= i < j < s.len() ==> !lex_lt(#[trigger] s[j].0, #[trigger] s[i].0)
}

/// The items of month `m`, in order.
pub open spec fn of_month(s: Seq<ItemView>, m: Seq<char>) -> Seq<ItemView>
    decreases s.len(),
{
    if s.len() == 0 {
        Seq::empty()
    } else if s[0].0 == m {
        seq![s[0]] + of_month(s.drop_first(), m)
    } else {
        of_month(s.drop_first(), m)
    }
}

proof fn lemma_of_month_concat(a: Seq<ItemView>, b: Seq<ItemView>, m: Seq<char>)
    ensures
        of_month(a + b, m) == of_month(a, m) + of_month(b, m),
    decreases a.len(),
{
    if a.len() == 0 {
        assert(a + b =~= b);
        assert(of_month(a, m) + of_month(b, m) =~= of_month(b, m));
    } else {
        lemma_of_month_concat(a.drop_first(), b, m);
        assert((a + b).drop_first() =~= a.drop_first() + b);
        assert((a + b)[0] == a[0]);
        if a[0].0 == m {
            assert(seq![a[0]] + (of_month(a.drop_first(), m) + of_month(b, m)) =~= (seq![a[0]]
                + of_month(a.drop_first(), m)) + of_month(b, m));
        }
    }
}

proof fn lemma_of_month_none(a: Seq<ItemView>, m: Seq<char>)
    requires
        forall|i: int| 0 <= i < a.len() ==> (#[trigger] a[i]).0 != m,
    ensures
        of_month(a, m) == Seq::<ItemView>::empty(),
    decreases a.len(),
{
    if a.len() > 0 {
        assert(forall|i: int| 0 <= i < a.drop_first().len() ==> a.drop_first()[i] == a[i + 1]);
        lemma_of_month_none(a.drop_first(), m);
    }
}

/// Whether `a` comes before `b` in the order of `str`.
pub fn month_less(a: &str, b: &str) -> (r: bool)
    ensures
        r == lex_lt(a@, b@),
{
    lex_less(&chars_of(a), &chars_of(b))
}

/// Orders items by month, oldest first; items of the same month keep their order.
pub fn sort_by_month(items: Vec<PlanItem>) -> (r: Vec<PlanItem>)
    ensures
        sorted_by_month(items_view(r@)),
        forall|m: Seq<char>|
            #[trigger] of_month(items_view(r@), m) == of_month(items_view(items@), m),
        items_view(r@).to_multiset() == items_view(items@).to_multiset(),
{
    broadcast use vstd::seq_lib::group_to_multiset_ensures, vstd::multiset::group_multiset_axioms;

    let mut rest = items;
    let mut out: Vec<PlanItem> = Vec::new();
    assert(items_view(out@) =~= Seq::<ItemView>::empty());
    assert(items_view(out@).to_multiset() =~= Multiset::<ItemView>::empty());
    assert(items_view(rest@) == items_view(items@));
    assert(items_view(out@).to_multiset().add(items_view(rest@).to_multiset()) =~= items_view(
        items@,
    ).to_multiset());
    let ghost all = items_view(items@);
    assert(all.take(all.len() as int) =~= all);
    assert(all.skip(all.len() as int) =~= Seq::<ItemView>::empty());
    while rest.len() > 0
        invariant
            rest@.len() <= all.len(),
            all == items_view(items@),
            items_view(rest@) == all.take(rest@.len() as int),
            forall|m: Seq<char>|
                #[trigger] of_month(items_view(out@), m) == of_month(all.skip(rest@.len() as int), m),
            sorted_by_month(items_view(out@)),
            items_view(out@).to_multiset().add(items_view(rest@).to_multiset())
                == items_view(items@).to_multiset(),
        decreases rest.len(),
    {
        let ghost r0 = rest@;
        let ghost k = rest@.len() as int;
        let ghost m0 = items_view(out@).to_multiset();
        let x = rest.pop().unwrap();
        proof {
            assert(all.take(k)[k - 1] == x@);
            assert(all[k - 1] == x@);
            assert(items_view(rest@) =~= all.take(k - 1));
            assert(all.skip(k - 1).drop_first() =~= all.skip(k));
            assert(all.skip(k - 1)[0] == x@);
        }
        assert(items_view(r0) =~= items_view(rest@).push(x@));
        proof {
            vstd::seq_lib::to_multiset_build(items_view(rest@), x@);
        }
        assert(items_view(r0).to_multiset() == items_view(rest@).to_multiset().insert(x@));
        let xm = chars_of(x.month.as_str());
        let mut p: usize = 0;
        while p < out.len() && lex_less(&chars_of(out[p].month.as_str()), &xm)
            invariant
                p <= out.len(),
                xm@ == x.month@,
                forall|i: int| 0 <= i < p ==> lex_lt(#[trigger] out@[i].month@, x.month@),
            decreases out.len() - p,
        {
            p = p + 1;
        }
        let ghost o0 = items_view(out@);
        proof {
            // every item from p on is at or after x
            assert forall|j: int| p <= j < o0.len() implies !lex_lt(#[trigger] o0[j].0, x.month@) by {
                assert(o0[p as int].0 == out@[p as int].month@);
                if j > p {
                    assert(!lex_lt(o0[j].0, o0[p as int].0));
                    lemma_lex_le_trans(x.month@, o0[p as int].0, o0[j].0);
                }
            }
        }
        out.insert(p, x);
        proof {
            let o1 = items_view(out@);
            assert(o1 =~= o0.insert(p as int, x@));
            assert forall|i: int, j: int| 0 <= i < j < o1.len() implies !lex_lt(
                #[trigger] o1[j].0,
                #[trigger] o1[i].0,
            ) by {
                if i < p && j == p {
                    lemma_lex_asym(o1[i].0, x.month@);
                } else if i < p && j > p {
                    lemma_lex_asym(o1[i].0, x.month@);
                    lemma_lex_le_trans(o1[i].0, x.month@, o1[j].0);
                }
            }
            assert forall|m: Seq<char>| #[trigger] of_month(o1, m) == of_month(all.skip(k - 1), m) by {
                let pre = o0.take(p as int);
                let post = o0.skip(p as int);
                assert(o0 =~= pre + post);
                assert(o1 =~= pre + (seq![x@] + post));
                lemma_of_month_concat(pre, post, m);
                lemma_of_month_concat(seq![x@], post, m);
                lemma_of_month_concat(pre, seq![x@] + post, m);
                assert(seq![x@].drop_first() =~= Seq::<ItemView>::empty());
                assert(of_month(Seq::<ItemView>::empty(), m) =~= Seq::<ItemView>::empty());
                assert(of_month(o0, m) == of_month(all.skip(k), m));
                let sk = all.skip(k - 1);
                assert(sk.len() > 0);
                assert(sk[0] == x@);
                assert(sk.drop_first() =~= all.skip(k));
                if m == x.month@ {
                    assert forall|i: int| 0 <= i < pre.len() implies (#[trigger] pre[i]).0 != m by {
                        assert(lex_lt(out@[i].month@, x.month@));
                        if pre[i].0 == m {
                            lemma_lex_asym(m, m);
                        }
                    }
                    lemma_of_month_none(pre, m);
                    assert(of_month(pre, m) + of_month(post, m) =~= of_month(post, m));
                    assert(of_month(seq![x@], m) =~= seq![x@]);
                    assert(Seq::<ItemView>::empty() + (seq![x@] + of_month(post, m)) =~= seq![x@]
                        + of_month(post, m));
                    assert(of_month(sk, m) == seq![x@] + of_month(all.skip(k), m));
                } else {
                    assert(of_month(seq![x@], m) =~= Seq::<ItemView>::empty());
                    assert(Seq::<ItemView>::empty() + of_month(post, m) =~= of_month(post, m));
                    assert(of_month(sk, m) == of_month(all.skip(k), m));
                }
            }
            vstd::seq_lib::to_multiset_insert(o0, p as int, x@);
            assert(o1.to_multiset() == o0.to_multiset().insert(x@));
            assert(o1.to_multiset().add(items_view(rest@).to_multiset()) =~= m0.add(
                items_view(r0).to_multiset(),
            ));
        }
    }
    assert(items_view(rest@) =~= Seq::<ItemView>::empty());
    assert(items_view(rest@).to_multiset() =~= Multiset::<ItemView>::empty());
    assert(items_view(out@).to_multiset().add(items_view(rest@).to_multiset()) =~= items_view(
        out@,
    ).to_multiset());
    out
}

/// An item read from an index line: the line ends in `?????-??.pgn.zst`, and the month is
/// the seven characters before the extension.
pub open spec fn item_from_line(it: ItemView) -> bool {
    archive_suffix(it.1) && it.0 == it.1.subrange(it.1.len() - 15, it.1.len() - 8)
}

/// The archives named by an index text, one per line `.../..._YYYY-MM.pgn.zst`, oldest first;
/// archives of the same month stay in the order of their lines.
pub fn parse_list_to_oldest(list_txt: &str) -> (r: Vec<PlanItem>)
    ensures
        sorted_by_month(items_view(r@)),
        forall|m: Seq<char>|
            #[trigger] of_month(items_view(r@), m) == of_month(index_items(list_txt@), m),
        items_view(r@).to_multiset() == index_items(list_txt@).to_multiset(),
        forall|i: int| 0 <= i < r.len() ==> item_from_line(#[trigger] items_view(r@)[i]),
        forall|i: int|
            #![trigger r@[i]]
            0 <= i < r.len() ==> exists|k: int|
                0 <= k < pieces(list_txt@).len() && trim_spec(#[trigger] pieces(list_txt@)[k])
                    == r@[i].url@,
        forall|k: int|
            0 <= k < pieces(list_txt@).len() && trim_spec(#[trigger] pieces(list_txt@)[k]).len() > 0
                && ascii_month_suffix(trim_spec(pieces(list_txt@)[k])) ==> exists|i: int|
                0 <= i < r.len() && r@[i].url@ == trim_spec(pieces(list_txt@)[k]),
{
    broadcast use vstd::seq_lib::group_to_multiset_ensures, vstd::multiset::group_multiset_axioms;

    let lines = split_pieces(list_txt);
    let mut items: Vec<PlanItem> = Vec::new();
    let n = lines.len();
    let mut i: usize = 0;
    while i < n
        invariant
            n == lines@.len(),
            i <= n,
            lines_view(lines@) == pieces(list_txt@),
            items_view(items@) == items_of(lines_view(lines@).take(i as int)),
            forall|j: int|
                0 <= j < items.len() ==> item_from_line(#[trigger] items_view(items@)[j])
                    && exists|k: int|
                    0 <= k < i && trim_spec(lines_view(lines@)[k]) == items_view(items@)[j].1,
            forall|k: int|
                0 <= k < i && trim_spec(#[trigger] lines_view(lines@)[k]).len() > 0
                    && ascii_month_suffix(trim_spec(lines_view(lines@)[k])) ==> exists|j: int|
                    0 <= j < items.len() && items_view(items@)[j].1 == trim_spec(
                        lines_view(lines@)[k],
                    ),
        decreases n - i,
    {
        proof {
            assert(lines_view(lines@).take(i + 1).drop_last() =~= lines_view(lines@).take(i as int));
            assert(lines_view(lines@).take(i + 1).last() == lines@[i as int]@);
        }
        let ghost lv = lines_view(lines@);
        let ghost before = items_view(items@);
        let t = trim(lines[i].as_str());
        assert(lv[i as int] == lines@[i as int]@);
        if t.unicode_len() > 0 {
            if let Some(month) = month_token(t) {
                let item = PlanItem { month, url: String::from_str(t) };
                items.push(item);
                assert(items_view(items@) =~= before.push(item@));
                proof {
                    let iv = items_view(items@);
                    assert forall|j: int| 0 <= j < items.len() implies item_from_line(
                        #[trigger] iv[j],
                    ) && exists|k: int| 0 <= k < i + 1 && trim_spec(lv[k]) == iv[j].1 by {
                        if j < before.len() {
                            assert(iv[j] == before[j]);
                            let k = choose|k: int| 0 <= k < i && trim_spec(lv[k]) == before[j].1;
                            assert(trim_spec(lv[k]) == iv[j].1);
                        } else {
                            assert(trim_spec(lv[i as int]) == iv[j].1);
                        }
                    }
                    assert forall|k: int|
                        0 <= k < i + 1 && trim_spec(#[trigger] lv[k]).len() > 0 && ascii_month_suffix(
                            trim_spec(lv[k]),
                        ) implies exists|j: int| 0 <= j < items.len() && iv[j].1 == trim_spec(lv[k]) by {
                        if k < i {
                            let j = choose|j: int| 0 <= j < before.len() && before[j].1 == trim_spec(lv[k]);
                            assert(iv[j] == before[j]);
                        } else {
                            assert(iv[before.len() as int].1 == trim_spec(lv[k]));
                        }
                    }
                }
            } else {
                proof {
                    assert forall|k: int|
                        0 <= k < i + 1 && trim_spec(#[trigger] lv[k]).len() > 0 && ascii_month_suffix(
                            trim_spec(lv[k]),
                        ) implies exists|j: int| 0 <= j < items.len() && before[j].1 == trim_spec(lv[k]) by {
                        if k == i {
                            assert(!ascii_month_suffix(t@));
                        }
                    }
                }
            }
        } else {
            proof {
                assert forall|k: int|
                    0 <= k < i + 1 && trim_spec(#[trigger] lv[k]).len() > 0 && ascii_month_suffix(
                        trim_spec(lv[k]),
                    ) implies exists|j: int| 0 <= j < items.len() && before[j].1 == trim_spec(lv[k]) by {
                    if k == i {
                        assert(trim_spec(lv[k]).len() == 0);
                    }
                }
            }
        }
        i = i + 1;
    }
    assert(lines_view(lines@).take(n as int) =~= lines_view(lines@));
    let ghost iv = items_view(items@);
    let ghost lv = lines_view(lines@);
    let r = sort_by_month(items);
    proof {
        let rv = items_view(r@);
        assert forall|i: int| 0 <= i < r.len() implies item_from_line(#[trigger] rv[i])
            && exists|k: int| 0 <= k < lv.len() && trim_spec(lv[k]) == rv[i].1 by {
            assert(rv.contains(rv[i]));
            vstd::seq_lib::to_multiset_contains(rv, rv[i]);
            vstd::seq_lib::to_multiset_contains(iv, rv[i]);
            let j = choose|j: int| 0 <= j < iv.len() && iv[j] == rv[i];
            assert(item_from_line(iv[j]));
        }
        assert forall|i: int| #![trigger r@[i]] 0 <= i < r.len() implies exists|k: int|
            0 <= k < pieces(list_txt@).len() && trim_spec(#[trigger] pieces(list_txt@)[k])
                == r@[i].url@ by {
            assert(rv[i].1 == r@[i].url@);
            let k = choose|k: int| 0 <= k < lv.len() && trim_spec(lv[k]) == rv[i].1;
            assert(pieces(list_txt@)[k] == lv[k]);
        }
        assert forall|k: int|
            0 <= k < pieces(list_txt@).len() && trim_spec(#[trigger] pieces(list_txt@)[k]).len() > 0
                && ascii_month_suffix(trim_spec(pieces(list_txt@)[k])) implies exists|i: int|
            0 <= i < r.len() && r@[i].url@ == trim_spec(pieces(list_txt@)[k]) by {
            assert(pieces(list_txt@)[k] == lv[k]);
            let j = choose|j: int| 0 <= j < iv.len() && iv[j].1 == trim_spec(lv[k]);
            assert(iv.contains(iv[j]));
            vstd::seq_lib::to_multiset_contains(rv, iv[j]);
            vstd::seq_lib::to_multiset_contains(iv, iv[j]);
            let i = choose|i: int| 0 <= i < rv.len() && rv[i] == iv[j];
            assert(r@[i].url@ == rv[i].1);
        }
    }
    r
}

pub open spec fn is_sep(c: char) -> bool {
    c == '-' || c == '/' || c == '.'
}

/// The first separator (`-`, `/` or `.`) at or after `i`, or the length.
pub open spec fn next_sep(s: Seq<char>, i: int) -> int
    decreases s.len() - i,
{
    if i < 0 || i >= s.len() {
        s.len() as int
    } else if is_sep(s[i]) {
        i
    } else {
        next_sep(s, i + 1)
    }
}

proof fn lemma_next_sep(s: Seq<char>, i: int)
    requires
        0 <= i <= s.len(),
    ensures
        i <= next_sep(s, i) <= s.len(),
        forall|k: int| i <= k < next_sep(s, i) ==> !is_sep(#[trigger] s[k]),
        next_sep(s, i) < s.len() ==> is_sep(s[next_sep(s, i)]),
    decreases s.len() - i,
{
    if i < s.len() && !is_sep(s[i]) {
        lemma_next_sep(s, i + 1);
    }
}

/// A month between 1 and 12 written with two digits.
pub open spec fn two_digits(v: int) -> Seq<char> {
    seq![digit_of(v / 10), digit_of(v % 10)]
}

/// A caller's month `YYYY-MM`, with `-`, `/` or `.` between year and month and the month
/// in one or more digits, written as `YYYY-MM`; none when it is not such a month.
pub open spec fn norm_month_spec(s: Seq<char>) -> Option<Seq<char>> {
    let t = trim_spec(s);
    let i = next_sep(t, 0);
    if i >= t.len() {
        None
    } else {
        month_of_parts(t.subrange(0, i), t.subrange(i + 1, next_sep(t, i + 1)))
    }
}

/// The month of a year part and a month part: four digits, and one or more digits whose
/// value is between 1 and 12.
pub open spec fn month_of_parts(y: Seq<char>, m: Seq<char>) -> Option<Seq<char>> {
    if y.len() == 4 && (forall|k: int| 0 <= k < 4 ==> is_digit(#[trigger] y[k])) && m.len() > 0
        && (forall|k: int| 0 <= k < m.len() ==> is_digit(#[trigger] m[k])) && 1 <= digits_value(m)
        <= 12 {
        Some(y + seq!['-'] + two_digits(digits_value(m)))
    } else {
        None
    }
}

fn digit_char(d: u32) -> (c: char)
    requires
        d < 10,
    ensures
        c == digit_of(d as int),
{
    if d == 0 {
        '0'
    } else if d == 1 {
        '1'
    } else if d == 2 {
        '2'
    } else if d == 3 {
        '3'
    } else if d == 4 {
        '4'
    } else if d == 5 {
        '5'
    } else if d == 6 {
        '6'
    } else if d == 7 {
        '7'
    } else if d == 8 {
        '8'
    } else {
        '9'
    }
}

/// A caller's month normalized to `YYYY-MM` (`2024-3`, `2024.03` and `2024/03` all give
/// `2024-03`); none when it is not a month.
pub fn norm_month(s: &str) -> (r: Option<String>)
    ensures
        r matches Some(m) ==> norm_month_spec(s@) == Some(m@),
        r is None ==> norm_month_spec(s@) is None,
{
    let t = chars_of(trim(s));
    let ghost tv = trim_spec(s@);
    let n = t.len();
    let mut i: usize = 0;
    while i < n && !(t[i] == '-' || t[i] == '/' || t[i] == '.')
        invariant
            t@ == tv,
            n == t.len(),
            i <= n,
            next_sep(tv, i as int) == next_sep(tv, 0),
        decreases n - i,
    {
        i = i + 1;
    }
    if i >= n {
        return None;
    }
    assert(next_sep(tv, i as int) == i);
    let mut j: usize = i + 1;
    while j < n && !(t[j] == '-' || t[j] == '/' || t[j] == '.')
        invariant
            t@ == tv,
            n == t.len(),
            i < j <= n,
            next_sep(tv, j as int) == next_sep(tv, i + 1),
        decreases n - j,
    {
        j = j + 1;
    }
    proof {
        if j < n {
            assert(next_sep(tv, j as int) == j);
        }
        assert(next_sep(tv, 0) == i);
        assert(next_sep(tv, i + 1) == j);
    }
    let ghost y = tv.subrange(0, i as int);
    let ghost m = tv.subrange(i + 1, j as int);
    assert(norm_month_spec(s@) == month_of_parts(y, m));
    if i != 4 {
        return None;
    }
    let mut k: usize = 0;
    while k < 4
        invariant
            t@ == tv,
            i == 4,
            n == t.len(),
            4 < n,
            k <= 4,
            y == tv.subrange(0, 4),
            i < j <= n,
            m == tv.subrange(i + 1, j as int),
            norm_month_spec(s@) == month_of_parts(y, m),
            forall|q: int| 0 <= q < k ==> is_digit(#[trigger] tv[q]),
        decreases 4 - k,
    {
        if !('0' <= t[k] && t[k] <= '9') {
            assert(y[k as int] == tv[k as int]);
            assert(!is_digit(y[k as int]));
            return None;
        }
        k = k + 1;
    }
    if j == i + 1 {
        return None;
    }
    // value of the month digits, capped at 13
    let mut v: u32 = 0;
    let mut q: usize = i + 1;
    while q < j
        invariant
            t@ == tv,
            n == t.len(),
            i == 4,
            i < q <= j,
            j <= n,
            y == tv.subrange(0, 4),
            m == tv.subrange(i + 1, j as int),
            norm_month_spec(s@) == month_of_parts(y, m),
            forall|z: int| 0 <= z < 4 ==> is_digit(#[trigger] tv[z]),
            forall|z: int| i + 1 <= z < q ==> is_digit(#[trigger] tv[z]),
            v as int == if digits_value(tv.subrange(i + 1, q as int)) < 13 {
                digits_value(tv.subrange(i + 1, q as int))
            } else {
                13
            },
        decreases j - q,
    {
        let c = t[q];
        if !('0' <= c && c <= '9') {
            assert(m[q - i - 1] == tv[q as int]);
            assert(!is_digit(m[q - i - 1]));
            return None;
        }
        proof {
            let pre = tv.subrange(i + 1, q as int);
            let nxt = tv.subrange(i + 1, q + 1);
            assert(nxt.drop_last() =~= pre);
            assert(nxt.last() == c);
            assert forall|z: int| 0 <= z < pre.len() implies is_digit(#[trigger] pre[z]) by {
                assert(pre[z] == tv[i + 1 + z]);
            }
            lemma_digits_value_nonneg(pre);
        }
        let d = c as u32 - '0' as u32;
        v = v * 10 + d;
        if v > 13 {
            v = 13;
        }
        q = q + 1;
    }
    proof {
        assert forall|z: int| 0 <= z < m.len() implies is_digit(#[trigger] m[z]) by {
            assert(m[z] == tv[i + 1 + z]);
        }
        assert forall|z: int| 0 <= z < 4 implies is_digit(#[trigger] y[z]) by {
            assert(y[z] == tv[z]);
        }
    }
    if v < 1 || v > 12 {
        return None;
    }
    let mut out = String::new();
    let mut p: usize = 0;
    while p < 4
        invariant
            t@ == tv,
            n == t.len(),
            4 < n,
            p <= 4,
            out@ == tv.subrange(0, p as int),
        decreases 4 - p,
    {
        push_char(&mut out, t[p]);
        assert(out@ =~= tv.subrange(0, p + 1));
        p = p + 1;
    }
    push_char(&mut out, '-');
    push_char(&mut out, digit_char(v / 10));
    push_char(&mut out, digit_char(v % 10));
    assert(out@ =~= y + seq!['-'] + two_digits(digits_value(m)));
    Some(out)
}

/// Whether a month stays in the plan: not before `since`, not after `until`, not done.
pub open spec fn keep_month(
    m: Seq<char>,
    since: Option<Seq<char>>,
    until: Option<Seq<char>>,
    done: Set<Seq<char>>,
) -> bool {
    &&& (since matches Some(s) ==> !lex_lt(m, s))
    &&& (until matches Some(u) ==> !lex_lt(u, m))
    &&& !done.contains(m)
}

/// The items that stay in the plan, in order.
pub open spec fn keep_items(
    s: Seq<ItemView>,
    since: Option<Seq<char>>,
    until: Option<Seq<char>>,
    done: Set<Seq<char>>,
) -> Seq<ItemView>
    decreases s.len(),
{
    if s.len() == 0 {
        Seq::empty()
    } else {
        let prev = keep_items(s.drop_last(), since, until, done);
        if keep_month(s.last().0, since, until, done) {
            prev.push(s.last())
        } else {
            prev
        }
    }
}

/// The bound given by a caller's optional month, once normalized; a month that does not
/// normalize sets no bound.
pub open spec fn bound_of(s: Option<Seq<char>>) -> Option<Seq<char>> {
    match s {
        Some(v) => norm_month_spec(v),
        None => None,
    }
}

pub open spec fn opt_view(s: Option<&str>) -> Option<Seq<char>> {
    match s {
        Some(v) => Some(v@),
        None => None,
    }
}

pub open spec fn done_set(done: Seq<String>) -> Set<Seq<char>> {
    lines_view(done).to_set()
}

fn contains_month(done: &[String], m: &String) -> (r: bool)
    ensures
        r == done_set(done@).contains(m@),
{
    let mut i: usize = 0;
    while i < done.len()
        invariant
            i <= done.len(),
            forall|k: int| 0 <= k < i ==> done@[k]@ != m@,
        decreases done.len() - i,
    {
        if done[i] == *m {
            assert(lines_view(done@)[i as int] == m@);
            return true;
        }
        i = i + 1;
    }
    proof {
        if done_set(done@).contains(m@) {
            let k = choose|k: int| 0 <= k < done@.len() && lines_view(done@)[k] == m@;
            assert(done@[k]@ == m@);
        }
    }
    false
}

/// Keeps the items whose month is within `[since, until]` (each bound normalized first,
/// and absent when it does not normalize) and not among the months `done`; order is kept.
pub fn select_plan(items: Vec<PlanItem>, since: Option<&str>, until: Option<&str>, done: &[String]) -> (r:
    Vec<PlanItem>)
    ensures
        items_view(r@) == keep_items(
            items_view(items@),
            bound_of(opt_view(since)),
            bound_of(opt_view(until)),
            done_set(done@),
        ),
{
    let since_n = match since {
        Some(s) => norm_month(s),
        None => None,
    };
    let until_n = match until {
        Some(u) => norm_month(u),
        None => None,
    };
    let ghost sb = bound_of(opt_view(since));
    let ghost ub = bound_of(opt_view(until));
    let ghost ds = done_set(done@);
    let mut rest = items;
    let mut kept_rev: Vec<PlanItem> = Vec::new();
    let ghost all = items_view(rest@);
    assert(all.take(rest@.len() as int) =~= all);
    assert(items_view(kept_rev@).reverse() =~= Seq::<ItemView>::empty());
    assert(keep_items(all, sb, ub, ds) + items_view(kept_rev@).reverse() =~= keep_items(all, sb, ub, ds));
    // walk from the back, then restore the order
    while rest.len() > 0
        invariant
            sb == bound_of(opt_view(since)),
            ub == bound_of(opt_view(until)),
            ds == done_set(done@),
            since_n matches Some(s) ==> sb == Some(s@),
            since_n is None ==> sb is None,
            until_n matches Some(u) ==> ub == Some(u@),
            until_n is None ==> ub is None,
            items_view(rest@) == all.take(rest@.len() as int),
            rest@.len() <= all.len(),
            keep_items(all.take(rest@.len() as int), sb, ub, ds) + items_view(kept_rev@).reverse()
                == keep_items(all, sb, ub, ds),
        decreases rest.len(),
    {
        let ghost r0 = rest@.len();
        let x = rest.pop().unwrap();
        proof {
            assert(all.take(r0 as int).drop_last() =~= all.take(r0 - 1));
            assert(all.take(r0 as int).last() == x@);
            assert(items_view(rest@) =~= all.take(r0 - 1));
        }
        let mut keep = true;
        if let Some(s) = &since_n {
            if month_less(x.month.as_str(), s.as_str()) {
                keep = false;
            }
        }
        if let Some(u) = &until_n {
            if month_less(u.as_str(), x.month.as_str()) {
                keep = false;
            }
        }
        if contains_month(done, &x.month) {
            keep = false;
        }
        assert(keep == keep_month(x.month@, sb, ub, ds));
        if keep {
            let ghost k0 = items_view(kept_rev@);
            kept_rev.push(x);
            assert(items_view(kept_rev@).reverse() =~= seq![x@] + k0.reverse());
            assert(keep_items(all.take(r0 as int), sb, ub, ds) =~= keep_items(all.take(r0 - 1), sb, ub, ds).push(x@));
            assert(keep_items(all.take(r0 - 1), sb, ub, ds) + items_view(kept_rev@).reverse()
                =~= keep_items(all.take(r0 as int), sb, ub, ds) + k0.reverse());
        }
    }
    assert(all.take(0) =~= Seq::<ItemView>::empty());
    assert(keep_items(Seq::<ItemView>::empty(), sb, ub, ds) + items_view(kept_rev@).reverse() =~= items_view(kept_rev@).reverse());
    let mut out: Vec<PlanItem> = Vec::new();
    let ghost kr = items_view(kept_rev@);
    while kept_rev.len() > 0
        invariant
            items_view(out@) + items_view(kept_rev@).reverse() == kr.reverse(),
        decreases kept_rev.len(),
    {
        let ghost k0 = items_view(kept_rev@);
        let ghost o0 = items_view(out@);
        let x = kept_rev.pop().unwrap();
        out.push(x);
        assert(k0 =~= items_view(kept_rev@).push(x@));
        assert(k0.reverse() =~= seq![x@] + items_view(kept_rev@).reverse());
        assert(items_view(out@) + items_view(kept_rev@).reverse() =~= o0 + k0.reverse());
    }
    assert(items_view(out@) =~= items_view(out@) + items_view(kept_rev@).reverse());
    out
}

} // verus!
