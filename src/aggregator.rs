use vstd::prelude::*;

use crate::config::Config;
use crate::model::{
    add_game_spec, has_room, map_wf, merge_maps, merge_spec, mergeable, unclassified, AggMap, Key,
    KeyView, Tally,
};
use crate::pgn::{
    bucket_spec, decimal_u16, eco_group_from_headers, eco_group_spec, elo_bucket_with_size,
    headers_spec, is_game_start, is_game_start_spec, lines_view, lookup, month_from_headers,
    month_spec, parse_elo, parse_headers, result_from_headers, result_spec, TagView,
};

verus! {

/// A game as the lines of its record.
pub type GameView = Seq<Seq<char>>;

/// The game records of a line stream: a new record starts at every line that opens a game,
/// and at the very first line; every other line joins the record before it.
pub open spec fn split_games(lines: Seq<Seq<char>>) -> Seq<GameView>
    decreases lines.len(),
{
    if lines.len() == 0 {
        Seq::empty()
    } else {
        let prev = split_games(lines.drop_last());
        let l = lines.last();
        if prev.len() == 0 || is_game_start_spec(l) {
            prev.push(seq![l])
        } else {
            prev.drop_last().push(prev.last().push(l))
        }
    }
}

/// The views of a list of games.
pub open spec fn games_view(games: Seq<Vec<String>>) -> Seq<GameView> {
    games.map_values(|g: Vec<String>| lines_view(g@))
}

proof fn lemma_games_view_len(games: Seq<Vec<String>>)
    ensures
        games_view(games).len() == games.len(),
{
}

/// No line is dropped: there are never more records than lines, every record holds a line,
/// and there is a record as soon as there is a line.
pub proof fn lemma_split_shape(lines: Seq<Seq<char>>)
    ensures
        split_games(lines).len() <= lines.len(),
        lines.len() > 0 <==> split_games(lines).len() > 0,
        forall|i: int| 0 <= i < split_games(lines).len() ==> #[trigger] split_games(lines)[i].len() > 0,
    decreases lines.len(),
{
    if lines.len() > 0 {
        lemma_split_shape(lines.drop_last());
    }
}

/// Splits a stream of lines, one at a time, into game records.
pub struct GameSplitter {
    current: Vec<String>,
    seen: Ghost<Seq<Seq<char>>>,
    emitted: Ghost<Seq<GameView>>,
}

impl GameSplitter {
    /// The lines pushed so far.
    pub closed spec fn seen(&self) -> Seq<Seq<char>> {
        self.seen@
    }

    /// The records handed out so far.
    pub closed spec fn emitted(&self) -> Seq<GameView> {
        self.emitted@
    }

    spec fn pending(&self) -> Seq<GameView> {
        if self.current.len() == 0 {
            Seq::empty()
        } else {
            seq![lines_view(self.current@)]
        }
    }

    /// The records handed out, followed by the one being read, are the records of the lines seen.
    pub closed spec fn wf(&self) -> bool {
        &&& split_games(self.seen@) == self.emitted@ + self.pending()
        &&& (self.current.len() == 0 <==> self.seen@.len() == 0)
    }

    pub fn new() -> (r: GameSplitter)
        ensures
            r.wf(),
            r.seen() == Seq::<Seq<char>>::empty(),
            r.emitted() == Seq::<GameView>::empty(),
    {
        let r = GameSplitter { current: Vec::new(), seen: Ghost(Seq::empty()), emitted: Ghost(Seq::empty()) };
        assert(r.emitted@ + r.pending() =~= Seq::<GameView>::empty());
        r
    }

    /// Reads one line; returns the record that this line closes, if it opens a new game.
    pub fn push_line(&mut self, line: String) -> (r: Option<Vec<String>>)
        requires
            old(self).wf(),
        ensures
            final(self).wf(),
            final(self).seen() == old(self).seen().push(line@),
            final(self).emitted() == old(self).emitted() + match r {
                Some(g) => seq![lines_view(g@)],
                None => Seq::<GameView>::empty(),
            },
            r is Some <==> is_game_start_spec(line@) && old(self).seen().len() > 0,
    {
        let ghost old_seen = self.seen@;
        let ghost lv = line@;
        proof {
            assert(old_seen.push(lv).drop_last() =~= old_seen);
        }
        let starts = is_game_start(line.as_str());
        if starts && self.current.len() > 0 {
            let mut game: Vec<String> = Vec::new();
            std::mem::swap(&mut game, &mut self.current);
            self.current.push(line);
            proof {
                self.seen@ = old_seen.push(lv);
                self.emitted@ = self.emitted@.push(lines_view(game@));
                assert(lines_view(self.current@) =~= seq![lv]);
                assert(split_games(self.seen@) =~= self.emitted@ + self.pending());
            }
            Some(game)
        } else {
            let ghost cur = self.current@;
            self.current.push(line);
            proof {
                self.seen@ = old_seen.push(lv);
                assert(lines_view(self.current@) =~= lines_view(cur).push(lv));
                if cur.len() == 0 {
                    let s2 = old_seen.push(lv);
                    assert(s2.last() == lv);
                    assert(old_seen.len() == 0);
                    assert(split_games(old_seen) =~= Seq::<GameView>::empty());
                    assert(self.emitted@ =~= Seq::<GameView>::empty());
                    assert(split_games(s2) == Seq::<GameView>::empty().push(seq![lv]));
                    assert(lines_view(self.current@) =~= seq![lv]);
                } else {
                    lemma_split_shape(old_seen);
                    let prev = split_games(old_seen);
                    let s2 = old_seen.push(lv);
                    assert(s2.last() == lv);
                    assert(!is_game_start_spec(lv));
                    assert(prev.drop_last() =~= self.emitted@);
                    assert(prev.last() == lines_view(cur));
                    assert(split_games(s2) == prev.drop_last().push(prev.last().push(lv)));
                }
                assert(split_games(self.seen@) =~= self.emitted@ + self.pending());
                assert(self.emitted@ + Seq::<GameView>::empty() =~= self.emitted@);
            }
            None
        }
    }

    /// Ends the stream; returns the last record, if any line was read.
    pub fn finish(self) -> (r: Option<Vec<String>>)
        requires
            self.wf(),
        ensures
            split_games(self.seen()) == self.emitted() + match r {
                Some(g) => seq![lines_view(g@)],
                None => Seq::<GameView>::empty(),
            },
    {
        if self.current.len() > 0 {
            Some(self.current)
        } else {
            None
        }
    }
}

/// How many records make a full batch: the batch size, and 1 for a size of 0.
pub open spec fn batch_capacity(size: usize) -> int {
    if size == 0 {
        1
    } else {
        size as int
    }
}

/// Groups the records of a line stream into batches of a fixed size.
pub struct GameBatcher {
    splitter: GameSplitter,
    batch: Vec<Vec<String>>,
    batch_size: usize,
    handed: Ghost<Seq<GameView>>,
}

impl GameBatcher {
    /// The lines pushed so far.
    pub closed spec fn seen(&self) -> Seq<Seq<char>> {
        self.splitter.seen()
    }

    /// The records handed out in batches so far, in order.
    pub closed spec fn handed(&self) -> Seq<GameView> {
        self.handed@
    }

    pub closed spec fn size(&self) -> usize {
        self.batch_size
    }

    /// The records completed so far: those handed out, then those waiting in the batch.
    pub closed spec fn records(&self) -> Seq<GameView> {
        self.splitter.emitted()
    }

    /// The number of completed records waiting in the batch.
    pub closed spec fn pending(&self) -> nat {
        self.batch.len() as nat
    }

    pub closed spec fn wf(&self) -> bool {
        &&& self.splitter.wf()
        &&& self.handed@ + games_view(self.batch@) == self.splitter.emitted()
        &&& self.batch.len() < batch_capacity(self.batch_size)
    }

    /// A batcher that hands out `batch_size` records at a time (each record at once for 0).
    pub fn new(batch_size: usize) -> (r: GameBatcher)
        ensures
            r.wf(),
            r.seen() == Seq::<Seq<char>>::empty(),
            r.handed() == Seq::<GameView>::empty(),
            r.records() == Seq::<GameView>::empty(),
            r.pending() == 0,
            r.size() == batch_size,
    {
        let r = GameBatcher {
            splitter: GameSplitter::new(),
            batch: Vec::new(),
            batch_size,
            handed: Ghost(Seq::empty()),
        };
        assert(r.handed@ + games_view(r.batch@) =~= Seq::<GameView>::empty());
        r
    }

    /// Reads one line. A line that opens a game, after the first line, completes a record;
    /// the batch is returned as soon as a completed record fills it.
    pub fn push_line(&mut self, line: String) -> (r: Option<Vec<Vec<String>>>)
        requires
            old(self).wf(),
        ensures
            final(self).wf(),
            final(self).size() == old(self).size(),
            final(self).seen() == old(self).seen().push(line@),
            final(self).handed().len() + final(self).pending() == final(self).records().len(),
            ({
                let closed = is_game_start_spec(line@) && old(self).seen().len() > 0;
                &&& closed ==> final(self).records().len() == old(self).records().len() + 1
                &&& !closed ==> final(self).records() == old(self).records()
                &&& final(self).records().take(old(self).records().len() as int)
                    == old(self).records()
                &&& r is Some <==> closed && old(self).pending() + 1 == batch_capacity(
                    old(self).size(),
                )
                &&& r is None ==> final(self).pending() == old(self).pending() + if closed {
                    1int
                } else {
                    0int
                }
            }),
            match r {
                Some(b) => {
                    &&& final(self).handed() == old(self).handed() + games_view(b@)
                    &&& b.len() == batch_capacity(old(self).size())
                    &&& final(self).pending() == 0
                },
                None => final(self).handed() == old(self).handed(),
            },
    {
        proof {
            lemma_games_view_len(self.batch@);
        }
        let ghost e0 = self.splitter.emitted();
        match self.splitter.push_line(line) {
            None => {
                assert(self.splitter.emitted() =~= e0);
                proof {
                    lemma_games_view_len(self.batch@);
                }
                None
            },
            Some(game) => {
                let ghost gv = lines_view(game@);
                let ghost b0 = self.batch@;
                self.batch.push(game);
                assert(games_view(self.batch@) =~= games_view(b0).push(gv));
                assert(self.handed@ + games_view(self.batch@) =~= self.splitter.emitted());
                proof {
                    lemma_games_view_len(self.batch@);
                    assert(self.splitter.emitted().take(e0.len() as int) =~= e0);
                }
                if self.batch.len() >= self.batch_size {
                    let mut out: Vec<Vec<String>> = Vec::new();
                    std::mem::swap(&mut out, &mut self.batch);
                    proof {
                        self.handed@ = self.handed@ + games_view(out@);
                        assert(games_view(self.batch@) =~= Seq::<GameView>::empty());
                        assert(self.handed@ + games_view(self.batch@) =~= self.splitter.emitted());
                    }
                    Some(out)
                } else {
                    None
                }
            },
        }
    }

    /// Ends the stream; returns the records not handed out yet, the last batch.
    pub fn finish(self) -> (r: Vec<Vec<String>>)
        requires
            self.wf(),
        ensures
            self.handed() + games_view(r@) == split_games(self.seen()),
    {
        let mut batch = self.batch;
        let ghost b0 = batch@;
        match self.splitter.finish() {
            Some(game) => {
                batch.push(game);
                assert(games_view(batch@) =~= games_view(b0).push(lines_view(game@)));
                assert(self.handed@ + games_view(batch@) =~= split_games(self.seen()));
            },
            None => {
                assert(self.splitter.emitted() + Seq::<GameView>::empty() =~= self.splitter.emitted());
            },
        }
        batch
    }
}

pub open spec fn white_elo_tag() -> Seq<char> {
    seq!['W', 'h', 'i', 't', 'e', 'E', 'l', 'o']
}

pub open spec fn black_elo_tag() -> Seq<char> {
    seq!['B', 'l', 'a', 'c', 'k', 'E', 'l', 'o']
}

/// The rating under `tag`, if present and readable.
pub open spec fn elo_spec(h: Seq<TagView>, tag: Seq<char>) -> Option<u16> {
    match lookup(h, tag) {
        Some(v) => decimal_u16(v),
        None => None,
    }
}

/// The key of a game: its month, opening family and the buckets of both ratings.
pub open spec fn game_key_spec(game: GameView, bucket: u16) -> KeyView {
    let h = headers_spec(game);
    (
        month_spec(h),
        eco_group_spec(h),
        bucket_spec(elo_spec(h, white_elo_tag()), bucket),
        bucket_spec(elo_spec(h, black_elo_tag()), bucket),
    )
}

/// The map after counting one more game; a record without lines counts nothing.
pub open spec fn add_game_to(m: Map<KeyView, Tally>, game: GameView, bucket: u16) -> Map<
    KeyView,
    Tally,
> {
    if game.len() == 0 {
        m
    } else {
        add_game_spec(m, game_key_spec(game, bucket), result_spec(headers_spec(game)))
    }
}

/// The counts of a sequence of games.
pub open spec fn tally_games(games: Seq<GameView>, bucket: u16) -> Map<KeyView, Tally>
    decreases games.len(),
{
    if games.len() == 0 {
        Map::empty()
    } else {
        add_game_to(tally_games(games.drop_last(), bucket), games.last(), bucket)
    }
}

/// Counts one game into `map`.
pub fn process_game_into_map(game_lines: &[String], map: &mut AggMap, cfg: &Config)
    requires
        old(map).wf(),
        has_room(old(map)@),
    ensures
        final(map).wf(),
        final(map)@ == add_game_to(old(map)@, lines_view(game_lines@), cfg.bucket_size),
{
    if game_lines.len() == 0 {
        return ;
    }
    let h = parse_headers(game_lines);
    let month = month_from_headers(&h);
    let eco_group = eco_group_from_headers(&h);
    let result = result_from_headers(&h);
    let white = "WhiteElo";
    let black = "BlackElo";
    proof {
        reveal_strlit("WhiteElo");
        reveal_strlit("BlackElo");
        assert(white@ =~= white_elo_tag());
        assert(black@ =~= black_elo_tag());
    }
    let w_elo = parse_elo(h.get(white));
    let b_elo = parse_elo(h.get(black));
    let key = Key {
        month,
        eco_group,
        w_bucket: elo_bucket_with_size(w_elo, cfg.bucket_size),
        b_bucket: elo_bucket_with_size(b_elo, cfg.bucket_size),
    };
    map.add_game(key, result.as_str());
}

/// Counting never breaks a counter: every count holds at most one game per game counted,
/// and its wins and draws never exceed its games.
pub proof fn lemma_tally_bounded(games: Seq<GameView>, bucket: u16)
    requires
        games.len() <= u64::MAX,
    ensures
        map_wf(tally_games(games, bucket)),
        forall|k: KeyView| #[trigger]
            tally_games(games, bucket).contains_key(k) ==> tally_games(games, bucket)[k].0
                <= games.len(),
    decreases games.len(),
{
    if games.len() > 0 {
        lemma_tally_bounded(games.drop_last(), bucket);
    }
}

/// Every count splits into white wins, black wins, draws and a remainder of unclassified
/// results that is never negative.
pub proof fn lemma_counts_partition(games: Seq<GameView>, bucket: u16, k: KeyView)
    requires
        games.len() <= u64::MAX,
        tally_games(games, bucket).contains_key(k),
    ensures
        ({
            let t = tally_games(games, bucket)[k];
            &&& t.0 == t.1 + t.2 + t.3 + unclassified(t)
            &&& unclassified(t) >= 0
        }),
{
    lemma_tally_bounded(games, bucket);
}

/// The counts of a batch of games.
pub fn process_batch(batch: &[Vec<String>], cfg: &Config) -> (r: AggMap)
    ensures
        r.wf(),
        r@ == tally_games(games_view(batch@), cfg.bucket_size),
{
    let mut map = AggMap::new();
    let n = batch.len();
    let mut i: usize = 0;
    while i < n
        invariant
            n == batch@.len(),
            i <= n,
            map.wf(),
            map@ == tally_games(games_view(batch@).take(i as int), cfg.bucket_size),
        decreases n - i,
    {
        proof {
            let gs = games_view(batch@);
            lemma_tally_bounded(gs.take(i as int), cfg.bucket_size);
            assert(gs.take(i + 1).drop_last() =~= gs.take(i as int));
        }
        process_game_into_map(batch[i].as_slice(), &mut map, cfg);
        i = i + 1;
    }
    assert(games_view(batch@).take(n as int) =~= games_view(batch@));
    map
}

proof fn lemma_add_game_merge(x: Map<KeyView, Tally>, y: Map<KeyView, Tally>, g: GameView, bucket: u16)
    ensures
        add_game_to(merge_spec(x, y), g, bucket) == merge_spec(x, add_game_to(y, g, bucket)),
{
    if g.len() > 0 {
        assert(add_game_to(merge_spec(x, y), g, bucket) =~= merge_spec(x, add_game_to(y, g, bucket)));
    }
}

/// Counting a sequence of games in two parts and merging the parts' maps gives the map of
/// the whole sequence.
pub proof fn lemma_tally_concat(a: Seq<GameView>, b: Seq<GameView>, bucket: u16)
    ensures
        tally_games(a + b, bucket) == merge_spec(tally_games(a, bucket), tally_games(b, bucket)),
    decreases b.len(),
{
    if b.len() == 0 {
        assert(a + b =~= a);
        assert(merge_spec(tally_games(a, bucket), Map::empty()) =~= tally_games(a, bucket));
    } else {
        lemma_tally_concat(a, b.drop_last(), bucket);
        assert((a + b).drop_last() =~= a + b.drop_last());
        assert((a + b).last() == b.last());
        lemma_add_game_merge(tally_games(a, bucket), tally_games(b.drop_last(), bucket), b.last(), bucket);
    }
}

/// The merge of a sequence of maps, left to right.
pub open spec fn merge_all(ms: Seq<Map<KeyView, Tally>>) -> Map<KeyView, Tally>
    decreases ms.len(),
{
    if ms.len() == 0 {
        Map::empty()
    } else {
        merge_spec(merge_all(ms.drop_last()), ms.last())
    }
}

/// The counts of each batch of a partition.
pub open spec fn batch_tallies(batches: Seq<Seq<GameView>>, bucket: u16) -> Seq<Map<KeyView, Tally>> {
    batches.map_values(|b: Seq<GameView>| tally_games(b, bucket))
}

/// However the games are cut into batches, of whatever sizes, merging the batches' maps
/// gives the map of all the games at once.
pub proof fn lemma_tally_batches(batches: Seq<Seq<GameView>>, bucket: u16)
    ensures
        merge_all(batch_tallies(batches, bucket)) == tally_games(batches.flatten(), bucket),
    decreases batches.len(),
{
    if batches.len() == 0 {
        assert(batches.flatten() =~= Seq::<GameView>::empty());
    } else {
        let init = batches.drop_last();
        lemma_tally_batches(init, bucket);
        assert(batch_tallies(batches, bucket).drop_last() =~= batch_tallies(init, bucket));
        init.lemma_flatten_push(batches.last());
        assert(init.push(batches.last()) =~= batches);
        lemma_tally_concat(init.flatten(), batches.last(), bucket);
    }
}

/// The merge is commutative.
pub proof fn lemma_merge_commutative(a: Map<KeyView, Tally>, b: Map<KeyView, Tally>)
    ensures
        merge_spec(a, b) == merge_spec(b, a),
{
    assert(merge_spec(a, b) =~= merge_spec(b, a));
}

/// The merge is associative.
pub proof fn lemma_merge_associative(
    a: Map<KeyView, Tally>,
    b: Map<KeyView, Tally>,
    c: Map<KeyView, Tally>,
)
    ensures
        merge_spec(merge_spec(a, b), c) == merge_spec(a, merge_spec(b, c)),
{
    assert(merge_spec(merge_spec(a, b), c) =~= merge_spec(a, merge_spec(b, c)));
}

/// The empty map is the identity of the merge.
pub proof fn lemma_merge_identity(a: Map<KeyView, Tally>)
    ensures
        merge_spec(a, Map::empty()) == a,
        merge_spec(Map::empty(), a) == a,
{
    assert(merge_spec(a, Map::empty()) =~= a);
    assert(merge_spec(Map::empty(), a) =~= a);
}

/// The counts of the game records of `lines`, and how many records there were. The records
/// are counted in batches of `cfg.batch_size`; the result is the same for every batch size.
pub fn aggregate_lines(lines: &[String], cfg: &Config) -> (r: (AggMap, usize))
    ensures
        r.0.wf(),
        r.0@ == tally_games(split_games(lines_view(lines@)), cfg.bucket_size),
        r.1 == split_games(lines_view(lines@)).len(),
{
    let mut batcher = GameBatcher::new(cfg.batch_size);
    let mut global = AggMap::new();
    let mut total: usize = 0;
    let n = lines.len();
    let mut i: usize = 0;
    while i < n
        invariant
            n == lines@.len(),
            i <= n,
            batcher.wf(),
            batcher.seen() == lines_view(lines@).take(i as int),
            global.wf(),
            global@ == tally_games(batcher.handed(), cfg.bucket_size),
            total == batcher.handed().len(),
            total <= i,
        decreases n - i,
    {
        let line = lines[i].clone();
        proof {
            assert(lines_view(lines@).take(i + 1) =~= lines_view(lines@).take(i as int).push(line@));
            lemma_split_shape(lines_view(lines@).take(i + 1));
        }
        let ghost h0 = batcher.handed();
        let got = batcher.push_line(line);
        proof {
            // the records handed out are a prefix of the records of the lines seen
            assert(batcher.handed().len() <= split_games(batcher.seen()).len()) by {
                assert(batcher.splitter.emitted().len() <= split_games(batcher.seen()).len());
            }
        }
        if let Some(batch) = got {
            let bm = process_batch(batch.as_slice(), cfg);
            proof {
                let gs = games_view(batch@);
                lemma_tally_bounded(h0, cfg.bucket_size);
                lemma_tally_bounded(gs, cfg.bucket_size);
                lemma_tally_concat(h0, gs, cfg.bucket_size);
                assert(mergeable(global@, bm@));
            }
            merge_maps(&mut global, bm);
            total = total + batch.len();
        }
        i = i + 1;
    }
    let last = batcher.finish();
    proof {
        assert(lines_view(lines@).take(n as int) =~= lines_view(lines@));
        lemma_split_shape(lines_view(lines@));
    }
    if last.len() > 0 {
        let bm = process_batch(last.as_slice(), cfg);
        proof {
            let gs = games_view(last@);
            lemma_tally_bounded(batcher.handed(), cfg.bucket_size);
            lemma_tally_bounded(gs, cfg.bucket_size);
            lemma_tally_concat(batcher.handed(), gs, cfg.bucket_size);
        }
        merge_maps(&mut global, bm);
        total = total + last.len();
    } else {
        assert(batcher.handed() + games_view(last@) =~= batcher.handed());
    }
    (global, total)
}

} // verus!
