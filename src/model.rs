use std::collections::HashMap;

use vstd::multiset::Multiset;
use vstd::prelude::*;

use crate::text::{chars_of, lemma_lex_asym, lemma_lex_le_trans, lemma_lex_total, lex_less, lex_lt};

verus! {

/// The view of a counter: (games, white wins, black wins, draws).
pub type Tally = (int, int, int, int);

/// The view of a key: (month, opening label, white bucket, black bucket).
pub type KeyView = (Seq<char>, Seq<char>, u16, u16);

pub open spec fn white_win_text() -> Seq<char> {
    seq!['1', '-', '0']
}

pub open spec fn black_win_text() -> Seq<char> {
    seq!['0', '-', '1']
}

pub open spec fn draw_text() -> Seq<char> {
    seq!['1', '/', '2', '-', '1', '/', '2']
}

pub open spec fn zero_tally() -> Tally {
    (0, 0, 0, 0)
}

/// A tally after one more game with result text `r`: the game always counts,
/// and only the three recognised results count as a win or a draw.
pub open spec fn tally_result(t: Tally, r: Seq<char>) -> Tally {
    (
        t.0 + 1,
        t.1 + if r == white_win_text() { 1int } else { 0int },
        t.2 + if r == black_win_text() { 1int } else { 0int },
        t.3 + if r == draw_text() { 1int } else { 0int },
    )
}

/// Field-wise sum: the monoid operation on tallies.
pub open spec fn add_tallies(a: Tally, b: Tally) -> Tally {
    (a.0 + b.0, a.1 + b.1, a.2 + b.2, a.3 + b.3)
}

/// A tally that a counter can hold: no field negative, none beyond `u64::MAX`,
/// and the classified results never exceed the games.
pub open spec fn tally_wf(t: Tally) -> bool {
    &&& 0 <= t.1
    &&& 0 <= t.2
    &&& 0 <= t.3
    &&& t.1 + t.2 + t.3 <= t.0
    &&& t.0 <= u64::MAX
}

/// The games that were counted but whose result is none of the three recognised ones.
pub open spec fn unclassified(t: Tally) -> int {
    t.0 - t.1 - t.2 - t.3
}

#[derive(Clone, Copy, Debug, PartialEq, Eq, Default)]
pub struct Counter {
    pub games: u64,
    pub white_wins: u64,
    pub black_wins: u64,
    pub draws: u64,
}

impl View for Counter {
    type V = Tally;

    open spec fn view(&self) -> Tally {
        (self.games as int, self.white_wins as int, self.black_wins as int, self.draws as int)
    }
}

/// Which of the recognised results a text is: 1 white wins, 2 black wins, 3 draw, 0 none.
pub open spec fn result_class(r: Seq<char>) -> int {
    if r == white_win_text() {
        1
    } else if r == black_win_text() {
        2
    } else if r == draw_text() {
        3
    } else {
        0
    }
}

fn classify_result(result: &str) -> (r: u8)
    ensures
        r as int == result_class(result@),
{
    let n = result.unicode_len();
    if n == 3 {
        let a = result.get_char(0);
        let b = result.get_char(1);
        let c = result.get_char(2);
        if a == '1' && b == '-' && c == '0' {
            assert(result@ =~= white_win_text());
            return 1;
        }
        if a == '0' && b == '-' && c == '1' {
            assert(result@ =~= black_win_text());
            return 2;
        }
    } else if n == 7 {
        let a = result.get_char(0);
        let b = result.get_char(1);
        let c = result.get_char(2);
        let d = result.get_char(3);
        let e = result.get_char(4);
        let f = result.get_char(5);
        let g = result.get_char(6);
        if a == '1' && b == '/' && c == '2' && d == '-' && e == '1' && f == '/' && g == '2' {
            assert(result@ =~= draw_text());
            return 3;
        }
    }
    proof {
        if result@ == white_win_text() || result@ == black_win_text() {
            assert(result@[0] == white_win_text()[0] || result@[0] == black_win_text()[0]);
        }
        if result@ == draw_text() {
            assert(result@[0] == draw_text()[0]);
        }
    }
    0
}

impl Counter {
    pub open spec fn wf(&self) -> bool {
        tally_wf(self@)
    }

    /// An empty counter, the identity of the merge.
    pub fn new() -> (r: Counter)
        ensures
            r@ == zero_tally(),
            r.wf(),
    {
        Counter { games: 0, white_wins: 0, black_wins: 0, draws: 0 }
    }

    /// Counts one game with result text `result`.
    pub fn add_result(&mut self, result: &str)
        requires
            old(self).wf(),
            old(self).games < u64::MAX,
        ensures
            final(self)@ == tally_result(old(self)@, result@),
            final(self).wf(),
    {
        self.games = self.games + 1;
        let class = classify_result(result);
        if class == 1 {
            self.white_wins = self.white_wins + 1;
        } else if class == 2 {
            self.black_wins = self.black_wins + 1;
        } else if class == 3 {
            self.draws = self.draws + 1;
        }
    }

    /// Adds another counter field by field.
    pub fn merge(&mut self, other: &Counter)
        requires
            old(self).wf(),
            other.wf(),
            old(self).games + other.games <= u64::MAX,
        ensures
            final(self)@ == add_tallies(old(self)@, other@),
            final(self).wf(),
    {
        self.games = self.games + other.games;
        self.white_wins = self.white_wins + other.white_wins;
        self.black_wins = self.black_wins + other.black_wins;
        self.draws = self.draws + other.draws;
    }
}


/// The key under which games are counted.
#[derive(Clone, Debug, Eq, Hash)]
pub struct Key {
    pub month: String,
    pub eco_group: String,
    pub w_bucket: u16,
    pub b_bucket: u16,
}

impl View for Key {
    type V = KeyView;

    open spec fn view(&self) -> KeyView {
        (self.month@, self.eco_group@, self.w_bucket, self.b_bucket)
    }
}

impl PartialEq for Key {
    fn eq(&self, other: &Key) -> (r: bool)
        ensures
            r == (self@ == other@),
    {
        self.month == other.month && self.eco_group == other.eco_group && self.w_bucket
            == other.w_bucket && self.b_bucket == other.b_bucket
    }
}

impl vstd::std_specs::cmp::PartialEqSpecImpl for Key {
    open spec fn obeys_eq_spec() -> bool {
        true
    }

    open spec fn eq_spec(&self, other: &Key) -> bool {
        self@ == other@
    }
}

/// The map that `keys` and `counts` describe together, later entries overriding earlier ones.
pub open spec fn map_of(keys: Seq<KeyView>, counts: Seq<Tally>) -> Map<KeyView, Tally>
    decreases keys.len(),
{
    if keys.len() == 0 || counts.len() == 0 {
        Map::empty()
    } else {
        map_of(keys.drop_last(), counts.drop_last()).insert(keys.last(), counts.last())
    }
}

/// The map after one more game under key `k` with result text `r`.
pub open spec fn add_game_spec(m: Map<KeyView, Tally>, k: KeyView, r: Seq<char>) -> Map<
    KeyView,
    Tally,
> {
    let before = if m.contains_key(k) {
        m[k]
    } else {
        zero_tally()
    };
    m.insert(k, tally_result(before, r))
}

/// The merge of two maps: keys of either, and the field-wise sum where both hold a key.
pub open spec fn merge_spec(a: Map<KeyView, Tally>, b: Map<KeyView, Tally>) -> Map<KeyView, Tally> {
    Map::new(
        |k: KeyView| a.contains_key(k) || b.contains_key(k),
        |k: KeyView|
            if a.contains_key(k) && b.contains_key(k) {
                add_tallies(a[k], b[k])
            } else if a.contains_key(k) {
                a[k]
            } else {
                b[k]
            },
    )
}

/// Every tally of the map is one that a counter can hold.
pub open spec fn map_wf(m: Map<KeyView, Tally>) -> bool {
    &&& m.dom().finite()
    &&& forall|k: KeyView| #[trigger] m.contains_key(k) ==> tally_wf(m[k])
}

/// Two maps whose merge fits in counters.
pub open spec fn mergeable(a: Map<KeyView, Tally>, b: Map<KeyView, Tally>) -> bool {
    forall|k: KeyView|
        a.contains_key(k) && b.contains_key(k) ==> #[trigger] a[k].0 + b[k].0 <= u64::MAX
}

proof fn lemma_map_of_dom(keys: Seq<KeyView>, counts: Seq<Tally>, k: KeyView)
    requires
        keys.len() == counts.len(),
    ensures
        map_of(keys, counts).contains_key(k) <==> keys.contains(k),
    decreases keys.len(),
{
    if keys.len() > 0 {
        lemma_map_of_dom(keys.drop_last(), counts.drop_last(), k);
        if keys.contains(k) && k != keys.last() {
            let i = choose|i: int| 0 <= i < keys.len() && keys[i] == k;
            assert(keys.drop_last()[i] == k);
        }
        if keys.drop_last().contains(k) {
            let i = choose|i: int| 0 <= i < keys.len() - 1 && keys.drop_last()[i] == k;
            assert(keys[i] == k);
        }
        if k == keys.last() {
            assert(keys[keys.len() - 1] == k);
        }
    }
}

proof fn lemma_map_of_finite(keys: Seq<KeyView>, counts: Seq<Tally>)
    ensures
        map_of(keys, counts).dom().finite(),
    decreases keys.len(),
{
    if keys.len() > 0 && counts.len() > 0 {
        lemma_map_of_finite(keys.drop_last(), counts.drop_last());
    }
}

proof fn lemma_map_of_at(keys: Seq<KeyView>, counts: Seq<Tally>, i: int)
    requires
        keys.len() == counts.len(),
        keys.no_duplicates(),
        0 <= i < keys.len(),
    ensures
        map_of(keys, counts).contains_key(keys[i]),
        map_of(keys, counts)[keys[i]] == counts[i],
    decreases keys.len(),
{
    if i < keys.len() - 1 {
        assert(keys.drop_last()[i] == keys[i]);
        lemma_map_of_at(keys.drop_last(), counts.drop_last(), i);
    }
}

proof fn lemma_map_of_update(keys: Seq<KeyView>, counts: Seq<Tally>, i: int, t: Tally)
    requires
        keys.len() == counts.len(),
        keys.no_duplicates(),
        0 <= i < keys.len(),
    ensures
        map_of(keys, counts.update(i, t)) == map_of(keys, counts).insert(keys[i], t),
    decreases keys.len(),
{
    let n = keys.len();
    if i == n - 1 {
        assert(counts.update(i, t).drop_last() =~= counts.drop_last());
        assert(map_of(keys, counts.update(i, t)) =~= map_of(keys, counts).insert(keys[i], t));
    } else {
        assert(counts.update(i, t).drop_last() =~= counts.drop_last().update(i, t));
        assert(keys.drop_last()[i] == keys[i]);
        lemma_map_of_update(keys.drop_last(), counts.drop_last(), i, t);
        assert(keys[i] != keys[n - 1]);
        assert(map_of(keys, counts.update(i, t)) =~= map_of(keys, counts).insert(keys[i], t));
    }
}

/// The slot code of a key: the position of its (month, label) pair and its two buckets.
pub open spec fn slot_code(pair: u128, w: u128, b: u128) -> u128 {
    (pair << 32u128) | (w << 16u128) | b
}

proof fn lemma_slot_code_injective(pa: u128, wa: u128, ba: u128, pb: u128, wb: u128, bb: u128)
    by (bit_vector)
    requires
        pa < 0x1_0000_0000_0000_0000u128,
        pb < 0x1_0000_0000_0000_0000u128,
        wa < 0x10000u128,
        wb < 0x10000u128,
        ba < 0x10000u128,
        bb < 0x10000u128,
        (pa << 32u128) | (wa << 16u128) | ba == (pb << 32u128) | (wb << 16u128) | bb,
    ensures
        pa == pb,
        wa == wb,
        ba == bb,
{
}

fn code_of(pair: usize, w: u16, b: u16) -> (c: u128)
    ensures
        c == slot_code(pair as u128, w as u128, b as u128),
{
    ((pair as u128) << 32u128) | ((w as u128) << 16u128) | (b as u128)
}

/// A map from keys to counters: the keys and their counters in two vectors of equal length,
/// each distinct (month, label) pair once in a table, and an index from slot codes to
/// positions.
pub struct AggMap {
    keys: Vec<Key>,
    counts: Vec<Counter>,
    pairs: Vec<(String, String)>,
    pair_of: Vec<usize>,
    index: HashMap<u128, usize>,
}

impl View for AggMap {
    type V = Map<KeyView, Tally>;

    closed spec fn view(&self) -> Map<KeyView, Tally> {
        map_of(self.key_views(), self.tally_views())
    }
}

impl AggMap {
    spec fn key_views(&self) -> Seq<KeyView> {
        self.keys@.map_values(|k: Key| k@)
    }

    spec fn tally_views(&self) -> Seq<Tally> {
        self.counts@.map_values(|c: Counter| c@)
    }

    spec fn pair_views(&self) -> Seq<(Seq<char>, Seq<char>)> {
        self.pairs@.map_values(|p: (String, String)| (p.0@, p.1@))
    }

    spec fn code_at(&self, i: int) -> u128 {
        slot_code(
            self.pair_of@[i] as u128,
            self.keys@[i].w_bucket as u128,
            self.keys@[i].b_bucket as u128,
        )
    }

    /// The representation is consistent: one counter and one pair per key, no key twice,
    /// every counter valid, and the index leads from each key's code to its position.
    pub closed spec fn wf(&self) -> bool {
        &&& self.keys.len() == self.counts.len()
        &&& self.keys.len() == self.pair_of.len()
        &&& self.key_views().no_duplicates()
        &&& self.pair_views().no_duplicates()
        &&& forall|i: int| 0 <= i < self.counts.len() ==> #[trigger] self.counts[i].wf()
        &&& forall|i: int|
            0 <= i < self.keys.len() ==> {
                &&& #[trigger] self.pair_of@[i] < self.pairs.len()
                &&& self.pairs@[self.pair_of@[i] as int].0@ == self.keys@[i].month@
                &&& self.pairs@[self.pair_of@[i] as int].1@ == self.keys@[i].eco_group@
            }
        &&& forall|i: int|
            0 <= i < self.keys.len() ==> #[trigger] self.index@.contains_key(self.code_at(i))
                && self.index@[self.code_at(i)] == i
        &&& forall|c: u128| #[trigger]
            self.index@.contains_key(c) ==> self.index@[c] < self.keys.len() && self.code_at(
                self.index@[c] as int,
            ) == c
    }

    proof fn lemma_view_wf(&self)
        requires
            self.wf(),
        ensures
            map_wf(self@),
            self@.dom().len() == self.keys.len(),
    {
        let ks = self.key_views();
        let ts = self.tally_views();
        lemma_map_of_finite(ks, ts);
        assert forall|k: KeyView| #[trigger] self@.contains_key(k) implies tally_wf(self@[k]) by {
            lemma_map_of_dom(ks, ts, k);
            let i = choose|i: int| 0 <= i < ks.len() && ks[i] == k;
            lemma_map_of_at(ks, ts, i);
            assert(self.counts[i].wf());
        }
        assert(self@.dom() =~= ks.to_set()) by {
            assert forall|k: KeyView| self@.dom().contains(k) <==> ks.to_set().contains(k) by {
                lemma_map_of_dom(ks, ts, k);
            }
        }
        ks.unique_seq_to_set();
    }

    /// An empty map.
    pub fn new() -> (r: AggMap)
        ensures
            r.wf(),
            r@ == Map::<KeyView, Tally>::empty(),
    {
        let r = AggMap {
            keys: Vec::new(),
            counts: Vec::new(),
            pairs: Vec::new(),
            pair_of: Vec::new(),
            index: HashMap::new(),
        };
        assert(r.key_views() =~= Seq::<KeyView>::empty());
        assert(r.pair_views() =~= Seq::<(Seq<char>, Seq<char>)>::empty());
        r
    }

    /// The number of keys.
    pub fn len(&self) -> (r: usize)
        requires
            self.wf(),
        ensures
            r as nat == self@.dom().len(),
    {
        proof {
            self.lemma_view_wf();
        }
        self.keys.len()
    }

    fn find_pair(&self, month: &String, label: &String) -> (r: Option<usize>)
        requires
            self.wf(),
        ensures
            match r {
                Some(p) => p < self.pairs.len() && self.pair_views()[p as int] == (month@, label@),
                None => !self.pair_views().contains((month@, label@)),
            },
    {
        let n = self.pairs.len();
        let mut i: usize = 0;
        while i < n
            invariant
                n == self.pairs.len(),
                i <= n,
                forall|j: int| 0 <= j < i ==> self.pair_views()[j] != (month@, label@),
            decreases n - i,
        {
            if self.pairs[i].0 == *month && self.pairs[i].1 == *label {
                return Some(i);
            }
            i = i + 1;
        }
        None
    }

    /// A key whose pair is the one at `p` has the code of `p` and its buckets.
    proof fn lemma_code_of_key(&self, i: int, p: int, k: KeyView)
        requires
            self.wf(),
            0 <= i < self.keys.len(),
            0 <= p < self.pairs.len(),
            self.pair_views()[p] == (k.0, k.1),
        ensures
            self.key_views()[i] == k <==> self.code_at(i) == slot_code(p as u128, k.2 as u128, k.3 as u128),
    {
        let q = self.pair_of@[i] as int;
        assert(self.pair_views()[q] == (self.keys@[i].month@, self.keys@[i].eco_group@));
        if self.code_at(i) == slot_code(p as u128, k.2 as u128, k.3 as u128) {
            lemma_slot_code_injective(
                q as u128,
                self.keys@[i].w_bucket as u128,
                self.keys@[i].b_bucket as u128,
                p as u128,
                k.2 as u128,
                k.3 as u128,
            );
        }
        if self.key_views()[i] == k {
            assert(self.pair_views()[q] == self.pair_views()[p]);
        }
    }

    fn find(&self, k: &Key) -> (r: Option<usize>)
        requires
            self.wf(),
        ensures
            match r {
                Some(i) => i < self.keys.len() && self.key_views()[i as int] == k@,
                None => !self.key_views().contains(k@),
            },
    {
        broadcast use vstd::std_specs::hash::group_hash_axioms;

        match self.find_pair(&k.month, &k.eco_group) {
            None => {
                proof {
                    if self.key_views().contains(k@) {
                        let i = choose|i: int| 0 <= i < self.keys.len() && self.key_views()[i] == k@;
                        let q = self.pair_of@[i] as int;
                        assert(self.pair_views()[q] == (k.month@, k.eco_group@));
                    }
                }
                None
            },
            Some(p) => {
                let c = code_of(p, k.w_bucket, k.b_bucket);
                match self.index.get(&c) {
                    Some(i) => {
                        let i = *i;
                        proof {
                            self.lemma_code_of_key(i as int, p as int, k@);
                        }
                        Some(i)
                    },
                    None => {
                        proof {
                            if self.key_views().contains(k@) {
                                let i = choose|i: int|
                                    0 <= i < self.keys.len() && self.key_views()[i] == k@;
                                self.lemma_code_of_key(i, p as int, k@);
                            }
                        }
                        None
                    },
                }
            },
        }
    }

    /// The counter stored under `k`, if any.
    pub fn get(&self, k: &Key) -> (r: Option<Counter>)
        requires
            self.wf(),
        ensures
            match r {
                Some(c) => self@.contains_key(k@) && self@[k@] == c@,
                None => !self@.contains_key(k@),
            },
    {
        proof {
            lemma_map_of_dom(self.key_views(), self.tally_views(), k@);
        }
        match self.find(k) {
            Some(i) => {
                proof {
                    lemma_map_of_at(self.key_views(), self.tally_views(), i as int);
                }
                Some(self.counts[i])
            },
            None => None,
        }
    }

    /// The entries of the map, one per key.
    pub fn entries(&self) -> (r: Vec<(Key, Counter)>)
        requires
            self.wf(),
        ensures
            r.len() == self@.dom().len(),
            forall|i: int|
                0 <= i < r.len() ==> #[trigger] self@.contains_key(r[i].0@) && self@[r[i].0@]
                    == r[i].1@,
            forall|k: KeyView| #[trigger]
                self@.contains_key(k) ==> exists|i: int| 0 <= i < r.len() && r[i].0@ == k,
    {
        proof {
            self.lemma_view_wf();
        }
        let mut out: Vec<(Key, Counter)> = Vec::new();
        let n = self.keys.len();
        let mut i: usize = 0;
        while i < n
            invariant
                self.wf(),
                n == self.keys.len(),
                i <= n,
                out.len() == i,
                forall|j: int|
                    0 <= j < i ==> #[trigger] out[j].0@ == self.key_views()[j] && out[j].1
                        == self.counts[j],
            decreases n - i,
        {
            let k = self.copy_key(i);
            out.push((k, self.counts[i]));
            i = i + 1;
        }
        proof {
            assert forall|j: int| 0 <= j < out.len() implies #[trigger] self@.contains_key(
                out[j].0@,
            ) && self@[out[j].0@] == out[j].1@ by {
                lemma_map_of_at(self.key_views(), self.tally_views(), j);
            }
            assert forall|k: KeyView| #[trigger] self@.contains_key(k) implies exists|i: int|
                0 <= i < out.len() && out[i].0@ == k by {
                lemma_map_of_dom(self.key_views(), self.tally_views(), k);
                let j = choose|j: int| 0 <= j < self.keys.len() && self.key_views()[j] == k;
                assert(out[j].0@ == k);
            }
        }
        out
    }

    fn copy_key(&self, i: usize) -> (r: Key)
        requires
            i < self.keys.len(),
        ensures
            r@ == self.keys[i as int]@,
    {
        let k = &self.keys[i];
        Key {
            month: String::from_str(k.month.as_str()),
            eco_group: String::from_str(k.eco_group.as_str()),
            w_bucket: k.w_bucket,
            b_bucket: k.b_bucket,
        }
    }

    /// Adds counter `c` under key `k`: field-wise to the counter there, or as a new entry.
    pub fn add_counter(&mut self, k: Key, c: Counter)
        requires
            old(self).wf(),
            c.wf(),
            old(self)@.contains_key(k@) ==> old(self)@[k@].0 + c.games <= u64::MAX,
        ensures
            final(self).wf(),
            final(self)@ == merge_spec(old(self)@, map![k@ => c@]),
    {
        broadcast use vstd::std_specs::hash::group_hash_axioms;

        let ghost ks = self.key_views();
        let ghost ts = self.tally_views();
        proof {
            lemma_map_of_dom(ks, ts, k@);
        }
        match self.find(&k) {
            Some(i) => {
                proof {
                    lemma_map_of_at(ks, ts, i as int);
                }
                let mut cur = self.counts[i];
                assert(cur.wf());
                cur.merge(&c);
                self.counts.set(i, cur);
                proof {
                    assert(self.tally_views() =~= ts.update(i as int, cur@));
                    assert(self.key_views() =~= ks);
                    lemma_map_of_update(ks, ts, i as int, cur@);
                    assert(self@ =~= merge_spec(old(self)@, map![k@ => c@]));
                    assert(forall|j: int| 0 <= j < self.keys.len() ==> self.code_at(j) == old(self).code_at(j));
                }
            },
            None => {
                let ghost kv = k@;
                let p = match self.find_pair(&k.month, &k.eco_group) {
                    Some(p) => p,
                    None => {
                        let ghost pv0 = self.pair_views();
                        let ghost before = *self;
                        let pair = (k.month.clone(), k.eco_group.clone());
                        self.pairs.push(pair);
                        proof {
                            let pv = self.pair_views();
                            assert(pv =~= pv0.push((kv.0, kv.1)));
                            assert forall|a: int, b: int|
                                0 <= a < pv.len() && 0 <= b < pv.len() && a != b implies pv[a]
                                != pv[b] by {
                                if a == pv0.len() as int {
                                    assert(pv0.contains(pv[b]));
                                } else if b == pv0.len() as int {
                                    assert(pv0.contains(pv[a]));
                                }
                            }
                            assert forall|j: int| 0 <= j < self.keys.len() implies #[trigger] self.pair_of@[j]
                                < self.pairs.len() && self.pairs@[self.pair_of@[j] as int].0@
                                == self.keys@[j].month@ && self.pairs@[self.pair_of@[j] as int].1@
                                == self.keys@[j].eco_group@ by {
                                assert(before.pair_of@[j] < before.pairs.len());
                            }
                            assert forall|j: int| 0 <= j < self.keys.len() implies #[trigger] self.code_at(j)
                                == before.code_at(j) by {}
                            assert forall|j: int| 0 <= j < self.keys.len() implies #[trigger] self.index@.contains_key(
                                self.code_at(j),
                            ) && self.index@[self.code_at(j)] == j by {
                                assert(self.code_at(j) == before.code_at(j));
                            }
                            assert forall|q: u128| #[trigger] self.index@.contains_key(q) implies self.index@[q]
                                < self.keys.len() && self.code_at(self.index@[q] as int) == q by {
                                assert(self.code_at(before.index@[q] as int) == before.code_at(before.index@[q] as int));
                            }
                            assert(self.wf());
                        }
                        self.pairs.len() - 1
                    },
                };
                let ghost mid = *self;
                assert(mid.wf());
                let code = code_of(p, k.w_bucket, k.b_bucket);
                proof {
                    // no key of the map has this code
                    if self.index@.contains_key(code) {
                        let j = self.index@[code] as int;
                        mid.lemma_code_of_key(j, p as int, kv);
                    }
                }
                let n = self.keys.len();
                self.keys.push(k);
                self.counts.push(c);
                self.pair_of.push(p);
                self.index.insert(code, n);
                proof {
                    assert(self.key_views() =~= ks.push(kv));
                    assert(self.tally_views() =~= ts.push(c@));
                    assert(self.key_views().drop_last() =~= ks);
                    assert(self.tally_views().drop_last() =~= ts);
                    assert(self@ =~= merge_spec(old(self)@, map![kv => c@]));
                    assert forall|j: int| 0 <= j < n implies #[trigger] self.code_at(j) == mid.code_at(j) by {}
                    assert(self.code_at(n as int) == code);
                    assert forall|j: int| 0 <= j < self.keys.len() implies #[trigger] self.pair_of@[j]
                        < self.pairs.len() && self.pairs@[self.pair_of@[j] as int].0@ == self.keys@[j].month@
                        && self.pairs@[self.pair_of@[j] as int].1@ == self.keys@[j].eco_group@ by {
                        if j < n {
                            assert(mid.pair_of@[j] < mid.pairs.len());
                        } else {
                            assert(self.pair_views()[p as int] == (kv.0, kv.1));
                        }
                    }
                    assert forall|j: int| 0 <= j < self.keys.len() implies #[trigger] self.index@.contains_key(
                        self.code_at(j),
                    ) && self.index@[self.code_at(j)] == j by {
                        if j < n {
                            assert(self.code_at(j) == mid.code_at(j));
                            assert(mid.index@.contains_key(mid.code_at(j)));
                        }
                    }
                    assert forall|q: u128| #[trigger] self.index@.contains_key(q) implies self.index@[q]
                        < self.keys.len() && self.code_at(self.index@[q] as int) == q by {
                        if q != code {
                            assert(mid.index@.contains_key(q));
                            assert(self.code_at(mid.index@[q] as int) == mid.code_at(mid.index@[q] as int));
                        }
                    }
                }
            },
        }
    }

    /// Counts one game with result text `result` under key `k`.
    pub fn add_game(&mut self, k: Key, result: &str)
        requires
            old(self).wf(),
            old(self)@.contains_key(k@) ==> old(self)@[k@].0 < u64::MAX,
        ensures
            final(self).wf(),
            final(self)@ == add_game_spec(old(self)@, k@, result@),
    {
        let mut c = Counter::new();
        c.add_result(result);
        let ghost kv = k@;
        self.add_counter(k, c);
        proof {
            assert(self@ =~= add_game_spec(old(self)@, kv, result@));
        }
    }

    fn pop(&mut self) -> (r: Option<(Key, Counter)>)
        requires
            old(self).wf(),
        ensures
            final(self).wf(),
            match r {
                None => old(self)@ == Map::<KeyView, Tally>::empty() && final(self)@ == old(self)@,
                Some((k, c)) => {
                    &&& !final(self)@.contains_key(k@)
                    &&& old(self)@ == final(self)@.insert(k@, c@)
                    &&& c.wf()
                },
            },
    {
        broadcast use vstd::std_specs::hash::group_hash_axioms;

        let ghost ks = self.key_views();
        let ghost ts = self.tally_views();
        let ghost before = *self;
        match self.keys.pop() {
            None => {
                assert(ks.len() == 0);
                None
            },
            Some(k) => {
                let c = self.counts.pop().unwrap();
                let p = self.pair_of.pop().unwrap();
                let n = self.keys.len();
                let code = code_of(p, k.w_bucket, k.b_bucket);
                self.index.remove(&code);
                proof {
                    assert(code == before.code_at(n as int));
                    assert(self.key_views() =~= ks.drop_last());
                    assert(self.tally_views() =~= ts.drop_last());
                    assert(ts.len() > 0);
                    assert(ks.last() == k@);
                    lemma_map_of_dom(ks.drop_last(), ts.drop_last(), k@);
                    if ks.drop_last().contains(k@) {
                        let j = choose|j: int| 0 <= j < ks.len() - 1 && ks.drop_last()[j] == k@;
                        assert(ks[j] == ks[ks.len() - 1]);
                    }
                    assert(before.counts[ks.len() - 1].wf());
                    assert forall|j: int| 0 <= j < n implies #[trigger] self.code_at(j) == before.code_at(j) by {}
                    assert forall|j: int| 0 <= j < self.keys.len() implies #[trigger] self.index@.contains_key(
                        self.code_at(j),
                    ) && self.index@[self.code_at(j)] == j by {
                        assert(self.code_at(j) == before.code_at(j));
                        assert(before.index@.contains_key(before.code_at(j)));
                        assert(before.code_at(j) != code);
                    }
                    assert forall|q: u128| #[trigger] self.index@.contains_key(q) implies self.index@[q]
                        < self.keys.len() && self.code_at(self.index@[q] as int) == q by {
                        assert(before.index@.contains_key(q));
                        assert(before.index@[q] != n);
                        assert(self.code_at(before.index@[q] as int) == before.code_at(before.index@[q] as int));
                    }
                    assert forall|j: int| 0 <= j < self.keys.len() implies #[trigger] self.pair_of@[j]
                        < self.pairs.len() && self.pairs@[self.pair_of@[j] as int].0@ == self.keys@[j].month@
                        && self.pairs@[self.pair_of@[j] as int].1@ == self.keys@[j].eco_group@ by {
                        assert(before.pair_of@[j] < before.pairs.len());
                    }
                }
                Some((k, c))
            },
        }
    }
}

/// The order of rows when counts are written out: by month, then opening label, then white
/// bucket, then black bucket.
pub open spec fn key_lt(a: KeyView, b: KeyView) -> bool {
    lex_lt(a.0, b.0) || (a.0 == b.0 && (lex_lt(a.1, b.1) || (a.1 == b.1 && (a.2 < b.2 || (a.2
        == b.2 && a.3 < b.3)))))
}

proof fn lemma_lex_facts(x: Seq<char>, y: Seq<char>)
    ensures
        lex_lt(x, y) ==> !lex_lt(y, x),
        lex_lt(x, y) || lex_lt(y, x) || x == y,
{
    lemma_lex_total(x, y);
    if lex_lt(x, y) {
        lemma_lex_asym(x, y);
    }
}

proof fn lemma_lex_trans_facts(x: Seq<char>, y: Seq<char>, z: Seq<char>)
    ensures
        !lex_lt(y, x) && !lex_lt(z, y) ==> !lex_lt(z, x),
{
    if !lex_lt(y, x) && !lex_lt(z, y) {
        lemma_lex_le_trans(x, y, z);
    }
}

proof fn lemma_key_facts(a: KeyView, b: KeyView, c: KeyView)
    ensures
        key_lt(a, b) ==> !key_lt(b, a),
        !key_lt(b, a) && !key_lt(c, b) ==> !key_lt(c, a),
{
    lemma_lex_facts(a.0, b.0);
    lemma_lex_facts(b.0, c.0);
    lemma_lex_facts(a.0, c.0);
    lemma_lex_facts(a.1, b.1);
    lemma_lex_facts(b.1, c.1);
    lemma_lex_facts(a.1, c.1);
    lemma_lex_facts(a.0, a.0);
    lemma_lex_facts(a.1, a.1);
    lemma_lex_trans_facts(a.0, b.0, c.0);
    lemma_lex_trans_facts(a.1, b.1, c.1);
}

fn key_less(a: &Key, b: &Key) -> (r: bool)
    ensures
        r == key_lt(a@, b@),
{
    if lex_less(&chars_of(a.month.as_str()), &chars_of(b.month.as_str())) {
        return true;
    }
    if a.month != b.month {
        return false;
    }
    if lex_less(&chars_of(a.eco_group.as_str()), &chars_of(b.eco_group.as_str())) {
        return true;
    }
    if a.eco_group != b.eco_group {
        return false;
    }
    if a.w_bucket != b.w_bucket {
        return a.w_bucket < b.w_bucket;
    }
    a.b_bucket < b.b_bucket
}

/// The view of a row: a key and its counts.
pub open spec fn rows_view(rows: Seq<(Key, Counter)>) -> Seq<(KeyView, Tally)> {
    rows.map_values(|e: (Key, Counter)| (e.0@, e.1@))
}

impl AggMap {
    /// Every entry of the map, in the order of `key_lt`.
    pub fn rows_by_key(&self) -> (r: Vec<(Key, Counter)>)
        requires
            self.wf(),
        ensures
            forall|i: int, j: int|
                0 <= i < j < r.len() ==> !key_lt(#[trigger] r[j].0@, #[trigger] r[i].0@),
            r.len() == self@.dom().len(),
            forall|i: int|
                0 <= i < r.len() ==> #[trigger] self@.contains_key(r[i].0@) && self@[r[i].0@]
                    == r[i].1@,
            forall|k: KeyView| #[trigger]
                self@.contains_key(k) ==> exists|i: int| 0 <= i < r.len() && r[i].0@ == k,
    {
        broadcast use vstd::seq_lib::group_to_multiset_ensures, vstd::multiset::group_multiset_axioms;

        let mut rest = self.entries();
        let ghost ents = rest@;
        let ghost all = rows_view(rest@);
        let mut out: Vec<(Key, Counter)> = Vec::new();
        assert(rows_view(out@) =~= Seq::<(KeyView, Tally)>::empty());
        assert(rows_view(out@).to_multiset() =~= Multiset::<(KeyView, Tally)>::empty());
        assert(rows_view(out@).to_multiset().add(rows_view(rest@).to_multiset()) =~= all.to_multiset());
        while rest.len() > 0
            invariant
                forall|i: int, j: int|
                    0 <= i < j < out.len() ==> !key_lt(#[trigger] out@[j].0@, #[trigger] out@[i].0@),
                rows_view(out@).to_multiset().add(rows_view(rest@).to_multiset()) == all.to_multiset(),
            decreases rest.len(),
        {
            let ghost r0 = rest@;
            let ghost m0 = rows_view(out@).to_multiset();
            let x = rest.pop().unwrap();
            assert(rows_view(r0) =~= rows_view(rest@).push((x.0@, x.1@)));
            let mut p: usize = 0;
            while p < out.len() && key_less(&out[p].0, &x.0)
                invariant
                    p <= out.len(),
                    forall|i: int| 0 <= i < p ==> key_lt(#[trigger] out@[i].0@, x.0@),
                decreases out.len() - p,
            {
                p = p + 1;
            }
            let ghost o0 = out@;
            proof {
                assert forall|j: int| p <= j < o0.len() implies !key_lt(#[trigger] o0[j].0@, x.0@) by {
                    if j > p {
                        assert(!key_lt(o0[j].0@, o0[p as int].0@));
                        lemma_key_facts(x.0@, o0[p as int].0@, o0[j].0@);
                    }
                }
            }
            out.insert(p, x);
            proof {
                let o1 = out@;
                assert(o1 =~= o0.insert(p as int, x));
                assert forall|i: int, j: int| 0 <= i < j < o1.len() implies !key_lt(
                    #[trigger] o1[j].0@,
                    #[trigger] o1[i].0@,
                ) by {
                    if i < p && j == p {
                        lemma_key_facts(o1[i].0@, x.0@, x.0@);
                    } else if i < p && j > p {
                        lemma_key_facts(o1[i].0@, x.0@, o1[j].0@);
                    }
                }
                assert(rows_view(o1) =~= rows_view(o0).insert(p as int, (x.0@, x.1@)));
                vstd::seq_lib::to_multiset_insert(rows_view(o0), p as int, (x.0@, x.1@));
                vstd::seq_lib::to_multiset_build(rows_view(rest@), (x.0@, x.1@));
                assert(rows_view(o1).to_multiset().add(rows_view(rest@).to_multiset()) =~= m0.add(
                    rows_view(r0).to_multiset(),
                ));
            }
        }
        proof {
            assert(rows_view(rest@) =~= Seq::<(KeyView, Tally)>::empty());
            assert(rows_view(rest@).to_multiset() =~= Multiset::<(KeyView, Tally)>::empty());
            assert(rows_view(out@).to_multiset() =~= all.to_multiset());
            let rv = rows_view(out@);
            assert forall|i: int| 0 <= i < out.len() implies #[trigger] self@.contains_key(out@[i].0@)
                && self@[out@[i].0@] == out@[i].1@ by {
                assert(rv[i] == (out@[i].0@, out@[i].1@));
                assert(rv.contains(rv[i]));
                vstd::seq_lib::to_multiset_contains(rv, rv[i]);
                vstd::seq_lib::to_multiset_contains(all, rv[i]);
                assert(all.contains(rv[i]));
                let j = choose|j: int| 0 <= j < all.len() && all[j] == rv[i];
                assert(all[j] == (ents[j].0@, ents[j].1@));
            }
            assert forall|k: KeyView| #[trigger] self@.contains_key(k) implies exists|i: int|
                0 <= i < out.len() && out@[i].0@ == k by {
                let j = choose|j: int| 0 <= j < ents.len() && ents[j].0@ == k;
                assert(all[j] == (ents[j].0@, ents[j].1@));
                assert(all.contains(all[j]));
                vstd::seq_lib::to_multiset_contains(rv, all[j]);
                vstd::seq_lib::to_multiset_contains(all, all[j]);
                assert(rv.contains(all[j]));
                let i = choose|i: int| 0 <= i < rv.len() && rv[i] == all[j];
                assert(out@[i].0@ == k);
            }
            assert(all.len() == ents.len());
            assert(rv.to_multiset().len() == all.to_multiset().len());
        }
        out
    }
}

/// Room for one more game under every key.
pub open spec fn has_room(m: Map<KeyView, Tally>) -> bool {
    forall|k: KeyView| #[trigger] m.contains_key(k) ==> m[k].0 < u64::MAX
}

impl AggMap {
    /// Whether one more game fits under every key.
    pub fn has_room_for_game(&self) -> (r: bool)
        requires
            self.wf(),
        ensures
            r == has_room(self@),
    {
        let n = self.counts.len();
        let mut i: usize = 0;
        while i < n
            invariant
                self.wf(),
                n == self.counts.len(),
                i <= n,
                forall|j: int| 0 <= j < i ==> (#[trigger] self.counts@[j]).games < u64::MAX,
            decreases n - i,
        {
            if self.counts[i].games == u64::MAX {
                proof {
                    lemma_map_of_at(self.key_views(), self.tally_views(), i as int);
                    assert(self@.contains_key(self.key_views()[i as int]));
                }
                return false;
            }
            i = i + 1;
        }
        proof {
            assert forall|k: KeyView| #[trigger] self@.contains_key(k) implies self@[k].0 < u64::MAX by {
                lemma_map_of_dom(self.key_views(), self.tally_views(), k);
                let j = choose|j: int| 0 <= j < self.keys.len() && self.key_views()[j] == k;
                lemma_map_of_at(self.key_views(), self.tally_views(), j);
            }
        }
        true
    }
}

/// Whether the merge of `a` and `b` fits in counters.
pub fn can_merge(a: &AggMap, b: &AggMap) -> (r: bool)
    requires
        a.wf(),
        b.wf(),
    ensures
        r == mergeable(a@, b@),
{
    let n = b.keys.len();
    let mut i: usize = 0;
    while i < n
        invariant
            a.wf(),
            b.wf(),
            n == b.keys.len(),
            i <= n,
            forall|j: int|
                0 <= j < i ==> a@.contains_key(#[trigger] b.key_views()[j]) ==> a@[b.key_views()[j]].0
                    + b.counts@[j].games <= u64::MAX,
        decreases n - i,
    {
        proof {
            lemma_map_of_at(b.key_views(), b.tally_views(), i as int);
        }
        match a.get(&b.keys[i]) {
            Some(c) => {
                if c.games > u64::MAX - b.counts[i].games {
                    proof {
                        let kv = b.key_views()[i as int];
                        assert(a@.contains_key(kv) && b@.contains_key(kv));
                        assert(a@[kv].0 + b@[kv].0 > u64::MAX);
                    }
                    return false;
                }
            },
            None => {},
        }
        i = i + 1;
    }
    proof {
        assert forall|k: KeyView| a@.contains_key(k) && b@.contains_key(k) implies #[trigger] a@[k].0
            + b@[k].0 <= u64::MAX by {
            lemma_map_of_dom(b.key_views(), b.tally_views(), k);
            let j = choose|j: int| 0 <= j < b.keys.len() && b.key_views()[j] == k;
            lemma_map_of_at(b.key_views(), b.tally_views(), j);
        }
    }
    true
}

/// Merges `src` into `dst`: every key of either, with field-wise sums where both hold it.
pub fn merge_maps(dst: &mut AggMap, src: AggMap)
    requires
        old(dst).wf(),
        src.wf(),
        mergeable(old(dst)@, src@),
    ensures
        final(dst).wf(),
        final(dst)@ == merge_spec(old(dst)@, src@),
{
    let mut rest = src;
    let ghost target = merge_spec(old(dst)@, src@);
    proof {
        rest.lemma_view_wf();
        dst.lemma_view_wf();
    }
    loop
        invariant
            dst.wf(),
            rest.wf(),
            merge_spec(dst@, rest@) == target,
            mergeable(dst@, rest@),
        ensures
            dst.wf(),
            dst@ == target,
        decreases rest@.dom().len(),
    {
        proof {
            rest.lemma_view_wf();
        }
        let ghost before = rest@;
        match rest.pop() {
            None => {
                assert(merge_spec(dst@, rest@) =~= dst@);
                assert(dst@ == target);
                break;
            },
            Some((k, c)) => {
                let ghost d0 = dst@;
                proof {
                    assert(before.contains_key(k@));
                }
                dst.add_counter(k, c);
                proof {
                    assert(rest@.dom() =~= before.dom().remove(k@));
                    assert(merge_spec(dst@, rest@) =~= merge_spec(d0, before));
                    assert forall|q: KeyView|
                        dst@.contains_key(q) && rest@.contains_key(q) implies #[trigger] dst@[q].0
                        + rest@[q].0 <= u64::MAX by {
                        assert(before.contains_key(q) && before[q] == rest@[q]);
                    }
                }
            },
        }
    }
}

} // verus!
