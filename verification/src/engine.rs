//! The dialogue with a UCI engine: the commands to send, the reading of its
//! lines, and the session's states. Nothing here does input or output: the
//! caller sends what it is handed and reports what it reads.
use crate::text::{
    chars_of, contains, contains_text, decimal, parse_u32, parsed_u32, push_decimal, range_is,
    same_text, slice_of, starts_with, starts_with_text, texts_of, token_ranges, tokens, trim_range, trimmed,
};
use std::collections::HashMap;
use vstd::prelude::*;
use vstd::std_specs::hash::*;

verus! {

broadcast use vstd::std_specs::hash::group_hash_axioms;

/// The token that follows the first token equal to `token`: none where no
/// token equals it, or where the first that does is the last of all.
pub open spec fn value_after(parts: Seq<Seq<char>>, token: Seq<char>) -> Option<Seq<char>>
    decreases parts.len(),
{
    if parts.len() == 0 {
        None
    } else if parts.first() == token {
        if parts.len() > 1 {
            Some(parts[1])
        } else {
            None
        }
    } else {
        value_after(parts.drop_first(), token)
    }
}

/// `value_after` on the tokens of the characters `v`, as the range of the
/// token that it names.
fn find_value(v: &Vec<char>, ranges: &Vec<(usize, usize)>, token: &Vec<char>) -> (found:
    Option<(usize, usize)>)
    requires
        ranges.len() == tokens(v@).len(),
        forall|k: int|
            0 <= k < ranges.len() ==> {
                &&& (#[trigger] ranges[k]).0 <= ranges[k].1 <= v.len()
                &&& v@.subrange(ranges[k].0 as int, ranges[k].1 as int) == tokens(v@)[k]
            },
    ensures
        match found {
            Some((start, end)) => start <= end <= v.len() && value_after(tokens(v@), token@)
                == Some(v@.subrange(start as int, end as int)),
            None => value_after(tokens(v@), token@) is None,
        },
{
    let n: usize = ranges.len();
    let ghost parts = tokens(v@);
    let mut i: usize = 0;
    proof {
        assert(parts.skip(0) =~= parts);
    }
    while i < n
        invariant
            n == ranges.len(),
            parts == tokens(v@),
            ranges.len() == parts.len(),
            forall|k: int|
                0 <= k < ranges.len() ==> {
                    &&& (#[trigger] ranges[k]).0 <= ranges[k].1 <= v.len()
                    &&& v@.subrange(ranges[k].0 as int, ranges[k].1 as int) == parts[k]
                },
            i <= n,
            value_after(parts, token@) == value_after(parts.skip(i as int), token@),
        decreases n - i,
    {
        let (start, end) = ranges[i];
        proof {
            assert(parts.skip(i as int).first() == parts[i as int]);
            assert(parts.skip(i as int).drop_first() =~= parts.skip(i + 1));
        }
        if range_is(v, start, end, token) {
            if i + 1 < n {
                proof {
                    assert(parts.skip(i as int)[1] == parts[i + 1]);
                }
                return Some(ranges[i + 1]);
            } else {
                return None;
            }
        }
        i = i + 1;
    }
    None
}

/// The token of `line` that follows the first token equal to `token`.
pub fn get_token_value(line: &str, token: &str) -> (value: Option<String>)
    ensures
        match value {
            Some(text) => value_after(tokens(line@), token@) == Some(text@),
            None => value_after(tokens(line@), token@) is None,
        },
{
    let v: Vec<char> = chars_of(line);
    let ranges: Vec<(usize, usize)> = token_ranges(&v);
    let wanted: Vec<char> = chars_of(token);
    match find_value(&v, &ranges, &wanted) {
        Some((start, end)) => Some(String::from_str(line.substring_char(start, end))),
        None => None,
    }
}

/// The same as `get_token_value`.
pub fn get_token_value_str(line: &str, token: &str) -> (value: Option<String>)
    ensures
        match value {
            Some(text) => value_after(tokens(line@), token@) == Some(text@),
            None => value_after(tokens(line@), token@) is None,
        },
{
    get_token_value(line, token)
}

/// Whether a trimmed line reports a principal variation: it starts with
/// `info` and holds both ` multipv ` and ` pv `.
pub open spec fn is_pv_line(line: Seq<char>) -> bool {
    starts_with_text(line, "info"@) && contains_text(line, " multipv "@) && contains_text(
        line,
        " pv "@,
    )
}

/// What a trimmed line reports of a principal variation: its index, and the
/// first move of the variation. None where the line is no such report, lacks
/// one of the two, or gives an index that is no `u32`.
pub open spec fn pv_entry_in(text: Seq<char>) -> Option<(u32, Seq<char>)> {
    let index = value_after(tokens(text), "multipv"@);
    let first = value_after(tokens(text), "pv"@);
    if is_pv_line(text) && index is Some && first is Some && parsed_u32(index->Some_0) is Some {
        Some((parsed_u32(index->Some_0)->Some_0, first->Some_0))
    } else {
        None
    }
}

/// What a line reports of a principal variation, white space at its ends
/// aside.
pub open spec fn pv_entry(line: Seq<char>) -> Option<(u32, Seq<char>)> {
    pv_entry_in(trimmed(line))
}

/// Whether a line announces the best move: it holds `bestmove`.
pub open spec fn is_bestmove_line(line: Seq<char>) -> bool {
    contains_text(trimmed(line), "bestmove"@)
}

/// The move that a line names after the token `bestmove`, where it does.
pub open spec fn named_bestmove(line: Seq<char>) -> Option<Seq<char>> {
    value_after(tokens(trimmed(line)), "bestmove"@)
}

/// The moves reported so far: for each index, the first move of the
/// variation that was last reported under it.
pub type Table = Map<u32, Seq<char>>;

/// The moves that `table` has for the indices below `bound`, in ascending
/// order of index.
pub open spec fn ranked_below(table: Table, bound: int) -> Seq<Seq<char>>
    decreases bound,
{
    if bound <= 0 {
        Seq::empty()
    } else {
        let before = ranked_below(table, bound - 1);
        if table.contains_key((bound - 1) as u32) {
            before.push(table[(bound - 1) as u32])
        } else {
            before
        }
    }
}

/// The moves of `table` by rank: in ascending order of index, the best
/// first.
pub open spec fn ranked(table: Table) -> Seq<Seq<char>> {
    ranked_below(table, 0x1_0000_0000)
}

/// Whether `keys` rise strictly.
pub open spec fn is_ascending(keys: Seq<u32>) -> bool {
    forall|i: int, j: int| 0 <= i < j < keys.len() ==> keys[i] < keys[j]
}

/// The moves that `table` has for `keys`, in the order of `keys`.
pub open spec fn moves_of(table: Table, keys: Seq<u32>) -> Seq<Seq<char>> {
    Seq::new(keys.len(), |k: int| table[keys[k]])
}

proof fn lemma_ranked_below(table: Table, keys: Seq<u32>, bound: int, count: int)
    requires
        is_ascending(keys),
        keys.to_set() == table.dom(),
        0 <= bound <= 0x1_0000_0000,
        0 <= count <= keys.len(),
        forall|i: int| 0 <= i < count ==> (#[trigger] keys[i]) < bound,
        forall|i: int| count <= i < keys.len() ==> (#[trigger] keys[i]) >= bound,
    ensures
        ranked_below(table, bound) == moves_of(table, keys.take(count)),
    decreases bound,
{
    if bound <= 0 {
        if count > 0 {
            assert(keys[0] < bound);
        }
        assert(moves_of(table, keys.take(count)) =~= Seq::empty());
    } else {
        let key = (bound - 1) as u32;
        if count > 0 && keys[count - 1] == key {
            assert(keys.contains(keys[count - 1]));
            assert(keys.to_set().contains(key));
            assert forall|i: int| 0 <= i < count - 1 implies (#[trigger] keys[i]) < bound - 1 by {
                assert(keys[i] < keys[count - 1]);
            }
            lemma_ranked_below(table, keys, bound - 1, count - 1);
            assert(moves_of(table, keys.take(count - 1)).push(table[key]) =~= moves_of(
                table,
                keys.take(count),
            ));
        } else {
            assert(!keys.contains(key)) by {
                if keys.contains(key) {
                    let i = choose|i: int| 0 <= i < keys.len() && keys[i] == key;
                    if i < count {
                        if i < count - 1 {
                            assert(keys[i] < keys[count - 1]);
                        }
                        assert(keys[count - 1] < bound);
                    } else {
                        assert(keys[i] >= bound);
                    }
                }
            }
            assert(!keys.to_set().contains(key));
            assert forall|i: int| 0 <= i < count implies (#[trigger] keys[i]) < bound - 1 by {
                if i < count - 1 {
                    assert(keys[i] < keys[count - 1]);
                }
                assert(keys[count - 1] < bound);
            }
            lemma_ranked_below(table, keys, bound - 1, count);
        }
    }
}

/// The ranked moves are the moves that the table has for its indices, taken
/// in ascending order of index: each index gives one move, and a lesser index
/// stands before a greater one.
pub proof fn lemma_ranked(table: Table, keys: Seq<u32>)
    requires
        is_ascending(keys),
        keys.to_set() == table.dom(),
    ensures
        ranked(table) == moves_of(table, keys),
        ranked(table).len() == keys.len(),
{
    lemma_ranked_below(table, keys, 0x1_0000_0000, keys.len() as int);
    assert(keys.take(keys.len() as int) =~= keys);
}

/// The first `count` of `moves`, or all of them where they are fewer.
pub open spec fn limited(moves: Seq<Seq<char>>, count: int) -> Seq<Seq<char>> {
    if count >= moves.len() {
        moves
    } else if count <= 0 {
        Seq::empty()
    } else {
        moves.take(count)
    }
}

/// `table` after the engine's line `line`.
pub open spec fn after_line(table: Table, line: Seq<char>) -> Table {
    match pv_entry(line) {
        Some((index, first)) => table.insert(index, first),
        None => table,
    }
}

/// A report replaces what the table had for its index, and leaves every other
/// index as it was; a line that is no report leaves the table as it was.
pub proof fn lemma_after_line(table: Table, line: Seq<char>, other: u32)
    ensures
        pv_entry(line) is None ==> after_line(table, line) == table,
        pv_entry(line) is Some ==> {
            let (index, first) = pv_entry(line)->Some_0;
            &&& after_line(table, line).contains_key(index)
            &&& after_line(table, line)[index] == first
            &&& other != index ==> after_line(table, line).contains_key(other)
                == table.contains_key(other)
            &&& other != index && table.contains_key(other) ==> after_line(table, line)[other]
                == table[other]
        },
{
}

/// The answer once the line `line` has announced the best move, `table`
/// holding what was reported up to and including that line: the reported moves
/// by rank, or, where none was reported, the move that the line names, if it
/// names one; in either case at most `lines` of them.
pub open spec fn answer(table: Table, line: Seq<char>, lines: u32) -> Seq<Seq<char>> {
    if table.dom().is_empty() {
        match named_bestmove(line) {
            Some(first) => limited(seq![first], lines as int),
            None => Seq::empty(),
        }
    } else {
        limited(ranked(table), lines as int)
    }
}

/// The table that the entries `entries` stand for.
pub open spec fn table_of(entries: Map<u32, String>) -> Table {
    entries.map_values(|first: String| first@)
}

/// Reads a report of a principal variation from the trimmed line `text`: the
/// index, and the range of the first move.
fn parse_pv(text: &Vec<char>, ranges: &Vec<(usize, usize)>) -> (entry: Option<(u32, usize, usize)>)
    requires
        ranges.len() == tokens(text@).len(),
        forall|k: int|
            0 <= k < ranges.len() ==> {
                &&& (#[trigger] ranges[k]).0 <= ranges[k].1 <= text.len()
                &&& text@.subrange(ranges[k].0 as int, ranges[k].1 as int) == tokens(text@)[k]
            },
    ensures
        match entry {
            Some((index, start, end)) => start <= end <= text.len() && pv_entry_in(text@) == Some(
                (index, text@.subrange(start as int, end as int)),
            ),
            None => pv_entry_in(text@) is None,
        },
{
    if !(starts_with(text, &chars_of("info")) && contains(text, &chars_of(" multipv "))
        && contains(text, &chars_of(" pv "))) {
        return None;
    }
    let (index_start, index_end) = match find_value(text, ranges, &chars_of("multipv")) {
        Some(r) => r,
        None => {
            return None;
        },
    };
    let (start, end) = match find_value(text, ranges, &chars_of("pv")) {
        Some(r) => r,
        None => {
            return None;
        },
    };
    match parse_u32(text, index_start, index_end) {
        Some(index) => Some((index, start, end)),
        None => None,
    }
}

/// Puts `key` into the ascending `keys`, which do not hold it.
fn insert_key(keys: &mut Vec<u32>, key: u32)
    requires
        is_ascending(old(keys)@),
        !old(keys)@.contains(key),
    ensures
        is_ascending(final(keys)@),
        final(keys)@.to_set() == old(keys)@.to_set().insert(key),
        final(keys)@.len() == old(keys)@.len() + 1,
{
    let n: usize = keys.len();
    let mut p: usize = 0;
    while p < n && keys[p] < key
        invariant
            n == keys.len(),
            p <= n,
            keys@ == old(keys)@,
            forall|k: int| 0 <= k < p ==> (#[trigger] keys[k]) < key,
        decreases n - p,
    {
        p = p + 1;
    }
    proof {
        if p < n {
            assert(old(keys)@.contains(old(keys)@[p as int]));
        }
        assert forall|k: int| p <= k < n implies (#[trigger] old(keys)@[k]) > key by {
            assert(old(keys)@.contains(old(keys)@[k]));
            if k > p {
                assert(old(keys)@[p as int] < old(keys)@[k]);
            }
        }
    }
    keys.insert(p, key);
    proof {
        let before = old(keys)@;
        let after = keys@;
        assert forall|i: int, j: int| 0 <= i < j < after.len() implies after[i] < after[j] by {
            if j < p {
                assert(after[i] == before[i] && after[j] == before[j]);
            } else if j == p {
                assert(after[i] == before[i]);
            } else if i < p {
                assert(after[i] == before[i] && after[j] == before[j - 1]);
                if i < j - 1 {
                    assert(before[i] < before[j - 1]);
                }
            } else if i == p {
                assert(after[j] == before[j - 1]);
            } else {
                assert(after[i] == before[i - 1] && after[j] == before[j - 1]);
            }
        }
        assert forall|x: u32| after.to_set().contains(x) <==> before.to_set().insert(
            key,
        ).contains(x) by {
            if after.contains(x) {
                let i = choose|i: int| 0 <= i < after.len() && after[i] == x;
                if i < p {
                    assert(before[i] == x);
                } else if i > p {
                    assert(before[i - 1] == x);
                }
            }
            if before.contains(x) {
                let i = choose|i: int| 0 <= i < before.len() && before[i] == x;
                if i < p {
                    assert(after[i] == x);
                } else {
                    assert(after[i + 1] == x);
                }
            }
            assert(after[p as int] == key);
        }
        assert(after.to_set() =~= before.to_set().insert(key));
    }
}

proof fn lemma_take_next(s: Seq<u32>, i: int)
    requires
        0 <= i < s.len(),
    ensures
        s.take(i + 1).to_set() == s.take(i).to_set().insert(s[i]),
{
    let longer = s.take(i + 1);
    let shorter = s.take(i);
    assert forall|x: u32| longer.to_set().contains(x) <==> shorter.to_set().insert(
        s[i],
    ).contains(x) by {
        if longer.contains(x) {
            let j = choose|j: int| 0 <= j < longer.len() && longer[j] == x;
            if j < i {
                assert(shorter[j] == x);
            }
        }
        if shorter.contains(x) {
            let j = choose|j: int| 0 <= j < shorter.len() && shorter[j] == x;
            assert(longer[j] == x);
        }
        assert(longer[i] == s[i]);
    }
    assert(longer.to_set() =~= shorter.to_set().insert(s[i]));
}

/// The indices that the entries hold, in ascending order.
fn ascending_keys(entries: &HashMap<u32, String>) -> (keys: Vec<u32>)
    ensures
        is_ascending(keys@),
        keys@.to_set() == entries@.dom(),
{
    let mut keys: Vec<u32> = Vec::new();
    proof {
        assert(keys@.to_set() =~= Seq::<u32>::empty().to_set());
    }
    for key in it: entries.keys()
        invariant
            it.seq().unref().to_set() == entries@.dom(),
            it.seq().no_duplicates(),
            is_ascending(keys@),
            keys@.to_set() == it.seq().unref().take(it.index() as int).to_set(),
            it.index() == it.seq().len() ==> keys@.to_set() == entries@.dom(),
    {
        assert(!keys@.contains(*key)) by {
            if keys@.contains(*key) {
                assert(keys@.to_set().contains(*key));
                assert(it.seq().unref().take(it.index() as int).contains(*key));
                let j = choose|j: int|
                    0 <= j < it.index() && it.seq().unref().take(it.index() as int)[j] == *key;
                assert(it.seq()[j] == it.seq()[it.index() as int]);
            }
        }
        insert_key(&mut keys, *key);
        assert(it.seq().unref().take(it.index() + 1).to_set() == it.seq().unref().take(
            it.index() as int,
        ).to_set().insert(*key)) by {
            lemma_take_next(it.seq().unref(), it.index() as int);
        }
        assert(it.seq().unref().take(it.seq().unref().len() as int) =~= it.seq().unref());
    }
    keys
}

/// The first `lines` moves of the entries by rank.
fn ranked_moves(entries: &HashMap<u32, String>, lines: u32) -> (moves: Vec<String>)
    ensures
        texts_of(moves@) == limited(ranked(table_of(entries@)), lines as int),
{
    let keys: Vec<u32> = ascending_keys(entries);
    let ghost table = table_of(entries@);
    proof {
        assert(table.dom() =~= entries@.dom());
        lemma_ranked(table, keys@);
    }
    let n: usize = keys.len();
    let count: usize = if (lines as usize) < n {
        lines as usize
    } else {
        n
    };
    let mut moves: Vec<String> = Vec::new();
    let mut k: usize = 0;
    while k < count
        invariant
            n == keys.len(),
            count <= n,
            k <= count,
            keys@.to_set() == entries@.dom(),
            table == table_of(entries@),
            moves.len() == k,
            forall|j: int| 0 <= j < k ==> (#[trigger] moves[j])@ == table[keys[j]],
        decreases count - k,
    {
        proof {
            assert(keys@.contains(keys@[k as int]));
            assert(keys@.to_set().contains(keys@[k as int]));
        }
        match entries.get(&keys[k]) {
            Some(first) => {
                moves.push(first.clone());
            },
            None => {
                proof {
                    assert(false);
                }
            },
        }
        k = k + 1;
    }
    proof {
        assert(texts_of(moves@) =~= limited(moves_of(table, keys@), lines as int));
    }
    moves
}

/// Where a session stands.
#[derive(Clone, Copy, Debug, PartialEq, Eq, Structural)]
pub enum Phase {
    /// No engine has been started.
    Uninitialized,
    /// `uci` was sent; `uciok` is awaited.
    AwaitingUciOk,
    /// `isready` was sent in the handshake; `readyok` is awaited.
    AwaitingReadyOk,
    /// The engine is idle and may be asked.
    Ready,
    /// An analysis was asked for and `isready` sent; `readyok` is awaited.
    Syncing,
    /// The search runs; its reports are read.
    Searching,
    /// The engine's stream failed; only a restart leads on.
    Faulted,
}

/// What went wrong with the engine.
#[derive(Clone, Copy, Debug, PartialEq, Eq, Structural)]
pub enum EngineError {
    /// The first handshake did not complete.
    HandshakeFailed,
    /// The stream closed or failed outside a handshake.
    StreamClosed,
    /// The handshake after a restart did not complete.
    RestartFailed,
    /// The session was not in the phase that the request needs.
    NotReady,
}

/// What an event means for the caller.
#[derive(Debug, PartialEq, Eq)]
pub enum Outcome {
    /// Nothing yet: go on reading.
    Pending,
    /// The handshake is complete.
    Ready,
    /// The analysis has ended with these moves, the best first.
    Moves(Vec<String>),
    /// The session has failed, or the request was refused.
    Failed(EngineError),
}

/// The session's answer to an event: the commands to send to the engine, in
/// this order, and the outcome.
#[derive(Debug, PartialEq, Eq)]
pub struct Reply {
    pub commands: Vec<String>,
    pub outcome: Outcome,
}

/// `Outcome` with its moves as texts.
pub enum OutcomeView {
    Pending,
    Ready,
    Moves(Seq<Seq<char>>),
    Failed(EngineError),
}

/// `Reply` with its commands as texts.
pub struct ReplyView {
    pub commands: Seq<Seq<char>>,
    pub outcome: OutcomeView,
}

impl View for Outcome {
    type V = OutcomeView;

    open spec fn view(&self) -> OutcomeView {
        match self {
            Outcome::Pending => OutcomeView::Pending,
            Outcome::Ready => OutcomeView::Ready,
            Outcome::Moves(moves) => OutcomeView::Moves(texts_of(moves@)),
            Outcome::Failed(error) => OutcomeView::Failed(*error),
        }
    }
}

impl View for Reply {
    type V = ReplyView;

    open spec fn view(&self) -> ReplyView {
        ReplyView { commands: texts_of(self.commands@), outcome: self.outcome@ }
    }
}

/// A session as the contracts see it.
pub struct SessionView {
    pub phase: Phase,
    /// Whether the handshake under way follows a restart.
    pub restarting: bool,
    /// The moves reported in the analysis under way.
    pub table: Table,
    /// The position of the analysis under way.
    pub fen: Seq<char>,
    pub depth: u32,
    /// How many moves the analysis under way may return.
    pub lines: u32,
}

/// The session of one engine: its phase, and what the analysis under way has
/// been told so far.
pub struct EngineSession {
    phase: Phase,
    restarting: bool,
    entries: HashMap<u32, String>,
    fen: String,
    depth: u32,
    lines: u32,
}

/// `setoption name <name> value <value>`.
pub open spec fn option_command(name: Seq<char>, value: Seq<char>) -> Seq<char> {
    "setoption name "@ + name + " value "@ + value
}

/// `position fen <fen>`.
pub open spec fn position_command(fen: Seq<char>) -> Seq<char> {
    "position fen "@ + fen
}

/// `go depth <depth>`.
pub open spec fn go_command(depth: u32) -> Seq<char> {
    "go depth "@ + decimal(depth as nat)
}

/// The commands that start a search: the number of lines, the position, and
/// the depth.
pub open spec fn search_commands(s: SessionView) -> Seq<Seq<char>> {
    seq![
        option_command("MultiPV"@, decimal(s.lines as nat)),
        position_command(s.fen),
        go_command(s.depth),
    ]
}

/// A reply without commands.
pub open spec fn quiet(outcome: OutcomeView) -> ReplyView {
    ReplyView { commands: Seq::empty(), outcome }
}

/// The session before an engine has been started.
pub open spec fn initial_session() -> SessionView {
    SessionView {
        phase: Phase::Uninitialized,
        restarting: false,
        table: Map::empty(),
        fen: Seq::empty(),
        depth: 0,
        lines: 0,
    }
}

/// The error of a handshake that does not complete.
pub open spec fn handshake_error(s: SessionView) -> EngineError {
    if s.restarting {
        EngineError::RestartFailed
    } else {
        EngineError::HandshakeFailed
    }
}

/// The session at the beginning of a handshake: `uci` is to be sent, and
/// nothing is kept of an earlier analysis.
pub open spec fn handshake_step(s: SessionView, restarting: bool) -> (SessionView, ReplyView) {
    (
        SessionView { phase: Phase::AwaitingUciOk, restarting, table: Map::empty(), ..s },
        ReplyView { commands: seq!["uci"@], outcome: OutcomeView::Pending },
    )
}

/// The session once the engine process runs for the first time: the
/// handshake begins. A session that has been started before is left as it is,
/// and the call is refused.
pub open spec fn start_step(s: SessionView) -> (SessionView, ReplyView) {
    if s.phase == Phase::Uninitialized {
        handshake_step(s, false)
    } else {
        (s, quiet(OutcomeView::Failed(EngineError::NotReady)))
    }
}

/// The session once a fresh engine process has replaced the old one, in
/// whatever phase: the handshake begins again.
pub open spec fn restart_step(s: SessionView) -> (SessionView, ReplyView) {
    handshake_step(s, true)
}

/// The session after a request for an analysis: taken up only where the
/// session is ready.
pub open spec fn request_step(s: SessionView, fen: Seq<char>, depth: u32, lines: u32) -> (
    SessionView,
    ReplyView,
) {
    if s.phase == Phase::Ready {
        (
            SessionView { phase: Phase::Syncing, table: Map::empty(), fen, depth, lines, ..s },
            ReplyView { commands: seq!["isready"@], outcome: OutcomeView::Pending },
        )
    } else {
        (s, quiet(OutcomeView::Failed(EngineError::NotReady)))
    }
}

/// The session after a line of the engine.
pub open spec fn line_step(s: SessionView, line: Seq<char>) -> (SessionView, ReplyView) {
    match s.phase {
        Phase::AwaitingUciOk => if trimmed(line) == "uciok"@ {
            (
                SessionView { phase: Phase::AwaitingReadyOk, ..s },
                ReplyView { commands: seq!["isready"@], outcome: OutcomeView::Pending },
            )
        } else {
            (s, quiet(OutcomeView::Pending))
        },
        Phase::AwaitingReadyOk => if trimmed(line) == "readyok"@ {
            (
                SessionView { phase: Phase::Ready, restarting: false, ..s },
                quiet(OutcomeView::Ready),
            )
        } else {
            (s, quiet(OutcomeView::Pending))
        },
        Phase::Syncing => if trimmed(line) == "readyok"@ {
            (
                SessionView { phase: Phase::Searching, ..s },
                ReplyView { commands: search_commands(s), outcome: OutcomeView::Pending },
            )
        } else {
            (s, quiet(OutcomeView::Pending))
        },
        Phase::Searching => if is_bestmove_line(line) {
            (
                SessionView { phase: Phase::Ready, table: Map::empty(), ..s },
                quiet(OutcomeView::Moves(answer(after_line(s.table, line), line, s.lines))),
            )
        } else {
            (SessionView { table: after_line(s.table, line), ..s }, quiet(OutcomeView::Pending))
        },
        _ => (s, quiet(OutcomeView::Pending)),
    }
}

/// The session after the time allowed has run out. A handshake fails. An
/// analysis ends with what has been reported: `stop` is to be sent.
pub open spec fn timeout_step(s: SessionView) -> (SessionView, ReplyView) {
    match s.phase {
        Phase::AwaitingUciOk | Phase::AwaitingReadyOk => (
            SessionView { phase: Phase::Faulted, ..s },
            quiet(OutcomeView::Failed(handshake_error(s))),
        ),
        Phase::Syncing | Phase::Searching => (
            SessionView { phase: Phase::Ready, table: Map::empty(), ..s },
            ReplyView {
                commands: seq!["stop"@],
                outcome: OutcomeView::Moves(limited(ranked(s.table), s.lines as int)),
            },
        ),
        _ => (s, quiet(OutcomeView::Pending)),
    }
}

/// The session after its stream has closed or failed.
pub open spec fn closed_step(s: SessionView) -> (SessionView, ReplyView) {
    match s.phase {
        Phase::Uninitialized => (s, quiet(OutcomeView::Failed(EngineError::StreamClosed))),
        Phase::AwaitingUciOk | Phase::AwaitingReadyOk => (
            SessionView { phase: Phase::Faulted, ..s },
            quiet(OutcomeView::Failed(handshake_error(s))),
        ),
        _ => (
            SessionView { phase: Phase::Faulted, ..s },
            quiet(OutcomeView::Failed(EngineError::StreamClosed)),
        ),
    }
}

/// The session after the caller has chosen to end the step under way: `stop`
/// and `isready` are to be sent, nothing is kept of the analysis, and
/// `readyok` is awaited as in a handshake. Refused where no engine is at
/// work.
pub open spec fn stop_step(s: SessionView) -> (SessionView, ReplyView) {
    match s.phase {
        Phase::Ready | Phase::Syncing | Phase::Searching => (
            SessionView { phase: Phase::AwaitingReadyOk, table: Map::empty(), ..s },
            ReplyView { commands: seq!["stop"@, "isready"@], outcome: OutcomeView::Pending },
        ),
        _ => (s, quiet(OutcomeView::Failed(EngineError::NotReady))),
    }
}

/// The answer to giving a session up: `quit` is to be sent.
pub open spec fn quit_reply() -> ReplyView {
    ReplyView { commands: seq!["quit"@], outcome: OutcomeView::Pending }
}

/// An answer never holds more moves than were asked for.
pub proof fn lemma_answer_bounded(table: Table, line: Seq<char>, lines: u32)
    ensures
        answer(table, line, lines).len() <= lines,
        limited(ranked(table), lines as int).len() <= lines,
        limited(ranked(table), lines as int).len() <= ranked(table).len(),
{
}

/// A faulted session stays faulted whatever is read, whatever time passes and
/// whatever is asked of it: only a restart leads on, into the handshake.
pub proof fn lemma_faulted_until_restart(
    s: SessionView,
    line: Seq<char>,
    fen: Seq<char>,
    depth: u32,
    lines: u32,
)
    requires
        s.phase == Phase::Faulted,
    ensures
        line_step(s, line).0 == s,
        timeout_step(s).0 == s,
        closed_step(s).0 == s,
        request_step(s, fen, depth, lines).0 == s,
        stop_step(s).0 == s,
        start_step(s).0 == s,
        restart_step(s).0.phase == Phase::AwaitingUciOk,
{
}

/// An analysis ends in moves, never in a failure, when its time runs out: with
/// every move reported until then, by rank, up to the number asked for.
pub proof fn lemma_timeout_returns_reports(s: SessionView)
    requires
        s.phase == Phase::Searching || s.phase == Phase::Syncing,
    ensures
        timeout_step(s).1.outcome == OutcomeView::Moves(limited(ranked(s.table), s.lines as int)),
        timeout_step(s).1.commands == seq!["stop"@],
        timeout_step(s).0.phase == Phase::Ready,
{
}

fn one_command(text: &str) -> (commands: Vec<String>)
    ensures
        texts_of(commands@) == seq![text@],
{
    let mut commands: Vec<String> = Vec::new();
    commands.push(String::from_str(text));
    proof {
        assert(texts_of(commands@) =~= seq![text@]);
    }
    commands
}

fn no_commands() -> (commands: Vec<String>)
    ensures
        texts_of(commands@) == Seq::<Seq<char>>::empty(),
{
    let commands: Vec<String> = Vec::new();
    proof {
        assert(texts_of(commands@) =~= Seq::<Seq<char>>::empty());
    }
    commands
}

/// The text of `setoption name <name> value <value>`.
pub fn option_command_text(name: &str, value: &str) -> (text: String)
    ensures
        text@ == option_command(name@, value@),
{
    let mut text: String = String::from_str("setoption name ");
    text.append(name);
    text.append(" value ");
    text.append(value);
    text
}

/// The text of `position fen <fen>`.
pub fn position_command_text(fen: &str) -> (text: String)
    ensures
        text@ == position_command(fen@),
{
    let mut text: String = String::from_str("position fen ");
    text.append(fen);
    text
}

/// The text of `go depth <depth>`.
pub fn go_command_text(depth: u32) -> (text: String)
    ensures
        text@ == go_command(depth),
{
    let mut text: String = String::from_str("go depth ");
    push_decimal(&mut text, depth);
    text
}

impl View for EngineSession {
    type V = SessionView;

    closed spec fn view(&self) -> SessionView {
        SessionView {
            phase: self.phase,
            restarting: self.restarting,
            table: table_of(self.entries@),
            fen: self.fen@,
            depth: self.depth,
            lines: self.lines,
        }
    }
}

impl EngineSession {
    /// A session without an engine.
    pub fn new() -> (session: EngineSession)
        ensures
            session@ == initial_session(),
    {
        let session = EngineSession {
            phase: Phase::Uninitialized,
            restarting: false,
            entries: HashMap::new(),
            fen: String::new(),
            depth: 0,
            lines: 0,
        };
        proof {
            assert(table_of(session.entries@) =~= Map::empty());
        }
        session
    }

    /// The phase that the session is in.
    pub fn phase(&self) -> (phase: Phase)
        ensures
            phase == self@.phase,
    {
        self.phase
    }

    /// To call once the engine process runs for the first time: the handshake
    /// begins. Refused on a session that has been started before.
    pub fn start(&mut self) -> (reply: Reply)
        ensures
            (final(self)@, reply@) == start_step(old(self)@),
    {
        match self.phase {
            Phase::Uninitialized => self.begin_handshake(false),
            _ => Reply {
                commands: no_commands(),
                outcome: Outcome::Failed(EngineError::NotReady),
            },
        }
    }

    /// To call once a fresh engine process has replaced the old one: the
    /// handshake begins again. Options set before are not set again.
    pub fn restart(&mut self) -> (reply: Reply)
        ensures
            (final(self)@, reply@) == restart_step(old(self)@),
    {
        self.begin_handshake(true)
    }

    fn begin_handshake(&mut self, restarting: bool) -> (reply: Reply)
        ensures
            (final(self)@, reply@) == handshake_step(old(self)@, restarting),
    {
        self.phase = Phase::AwaitingUciOk;
        self.restarting = restarting;
        self.entries = HashMap::new();
        proof {
            assert(table_of(self.entries@) =~= Map::empty());
        }
        Reply { commands: one_command("uci"), outcome: Outcome::Pending }
    }

    /// Asks for an analysis of the position `fen` to `depth`, with at most
    /// `lines` moves in the answer.
    pub fn analyze(&mut self, fen: &str, depth: u32, lines: u32) -> (reply: Reply)
        ensures
            (final(self)@, reply@) == request_step(old(self)@, fen@, depth, lines),
    {
        match self.phase {
            Phase::Ready => {
                self.phase = Phase::Syncing;
                self.entries = HashMap::new();
                self.fen = String::from_str(fen);
                self.depth = depth;
                self.lines = lines;
                proof {
                    assert(table_of(self.entries@) =~= Map::empty());
                }
                Reply { commands: one_command("isready"), outcome: Outcome::Pending }
            },
            _ => Reply {
                commands: no_commands(),
                outcome: Outcome::Failed(EngineError::NotReady),
            },
        }
    }

    /// The command that sets an option of the engine; refused unless the
    /// session is ready.
    pub fn set_option(&self, name: &str, value: &str) -> (reply: Reply)
        ensures
            reply@ == (if self@.phase == Phase::Ready {
                ReplyView {
                    commands: seq![option_command(name@, value@)],
                    outcome: OutcomeView::Pending,
                }
            } else {
                quiet(OutcomeView::Failed(EngineError::NotReady))
            }),
    {
        match self.phase {
            Phase::Ready => {
                let mut commands: Vec<String> = Vec::new();
                commands.push(option_command_text(name, value));
                proof {
                    assert(texts_of(commands@) =~= seq![option_command(name@, value@)]);
                }
                Reply { commands, outcome: Outcome::Pending }
            },
            _ => Reply {
                commands: no_commands(),
                outcome: Outcome::Failed(EngineError::NotReady),
            },
        }
    }

    fn search(&self) -> (commands: Vec<String>)
        ensures
            texts_of(commands@) == search_commands(self@),
    {
        let mut count: String = String::new();
        push_decimal(&mut count, self.lines);
        let mut commands: Vec<String> = Vec::new();
        commands.push(option_command_text("MultiPV", count.as_str()));
        commands.push(position_command_text(self.fen.as_str()));
        commands.push(go_command_text(self.depth));
        proof {
            assert(count@ =~= decimal(self.lines as nat));
            assert(texts_of(commands@) =~= search_commands(self@));
        }
        commands
    }

    /// Takes in one line that the engine has written.
    pub fn on_line(&mut self, line: &str) -> (reply: Reply)
        ensures
            (final(self)@, reply@) == line_step(old(self)@, line@),
    {
        let v: Vec<char> = chars_of(line);
        let (from, to) = trim_range(&v);
        let text: Vec<char> = slice_of(&v, from, to);
        match self.phase {
            Phase::AwaitingUciOk => {
                if same_text(&text, &chars_of("uciok")) {
                    self.phase = Phase::AwaitingReadyOk;
                    Reply { commands: one_command("isready"), outcome: Outcome::Pending }
                } else {
                    Reply { commands: no_commands(), outcome: Outcome::Pending }
                }
            },
            Phase::AwaitingReadyOk => {
                if same_text(&text, &chars_of("readyok")) {
                    self.phase = Phase::Ready;
                    self.restarting = false;
                    Reply { commands: no_commands(), outcome: Outcome::Ready }
                } else {
                    Reply { commands: no_commands(), outcome: Outcome::Pending }
                }
            },
            Phase::Syncing => {
                if same_text(&text, &chars_of("readyok")) {
                    let commands: Vec<String> = self.search();
                    self.phase = Phase::Searching;
                    Reply { commands, outcome: Outcome::Pending }
                } else {
                    Reply { commands: no_commands(), outcome: Outcome::Pending }
                }
            },
            Phase::Searching => {
                let ranges: Vec<(usize, usize)> = token_ranges(&text);
                match parse_pv(&text, &ranges) {
                    Some((index, start, end)) => {
                        proof {
                            assert(text@.subrange(start as int, end as int) =~= line@.subrange(
                                from + start,
                                from + end,
                            ));
                        }
                        let first: String = String::from_str(
                            line.substring_char(from + start, from + end),
                        );
                        let ghost before = self.entries@;
                        self.entries.insert(index, first);
                        proof {
                            assert(table_of(self.entries@) =~= table_of(before).insert(
                                index,
                                first@,
                            ));
                        }
                    },
                    None => {},
                }
                if contains(&text, &chars_of("bestmove")) {
                    let moves: Vec<String> = if self.entries.is_empty() {
                        match find_value(&text, &ranges, &chars_of("bestmove")) {
                            Some((start, end)) => {
                                proof {
                                    assert(text@.subrange(start as int, end as int)
                                        =~= line@.subrange(from + start, from + end));
                                }
                                let mut named: Vec<String> = Vec::new();
                                if self.lines > 0 {
                                    named.push(
                                        String::from_str(
                                            line.substring_char(from + start, from + end),
                                        ),
                                    );
                                }
                                proof {
                                    assert(texts_of(named@) =~= limited(
                                        seq![text@.subrange(start as int, end as int)],
                                        self.lines as int,
                                    ));
                                }
                                named
                            },
                            None => no_commands(),
                        }
                    } else {
                        ranked_moves(&self.entries, self.lines)
                    };
                    self.phase = Phase::Ready;
                    self.entries = HashMap::new();
                    proof {
                        assert(table_of(self.entries@) =~= Map::empty());
                    }
                    Reply { commands: no_commands(), outcome: Outcome::Moves(moves) }
                } else {
                    Reply { commands: no_commands(), outcome: Outcome::Pending }
                }
            },
            _ => Reply { commands: no_commands(), outcome: Outcome::Pending },
        }
    }

    /// To call when the time allowed for the step under way has run out.
    pub fn on_timeout(&mut self) -> (reply: Reply)
        ensures
            (final(self)@, reply@) == timeout_step(old(self)@),
    {
        match self.phase {
            Phase::AwaitingUciOk | Phase::AwaitingReadyOk => {
                let error: EngineError = self.failed_handshake();
                self.phase = Phase::Faulted;
                Reply { commands: no_commands(), outcome: Outcome::Failed(error) }
            },
            Phase::Syncing | Phase::Searching => {
                let moves: Vec<String> = ranked_moves(&self.entries, self.lines);
                self.phase = Phase::Ready;
                self.entries = HashMap::new();
                proof {
                    assert(table_of(self.entries@) =~= Map::empty());
                }
                Reply { commands: one_command("stop"), outcome: Outcome::Moves(moves) }
            },
            _ => Reply { commands: no_commands(), outcome: Outcome::Pending },
        }
    }

    /// To call when reading from or writing to the engine has failed, or its
    /// stream has ended.
    pub fn on_closed(&mut self) -> (reply: Reply)
        ensures
            (final(self)@, reply@) == closed_step(old(self)@),
    {
        match self.phase {
            Phase::Uninitialized => Reply {
                commands: no_commands(),
                outcome: Outcome::Failed(EngineError::StreamClosed),
            },
            Phase::AwaitingUciOk | Phase::AwaitingReadyOk => {
                let error: EngineError = self.failed_handshake();
                self.phase = Phase::Faulted;
                Reply { commands: no_commands(), outcome: Outcome::Failed(error) }
            },
            _ => {
                self.phase = Phase::Faulted;
                Reply {
                    commands: no_commands(),
                    outcome: Outcome::Failed(EngineError::StreamClosed),
                }
            },
        }
    }

    /// Ends the step under way and asks the engine to report when it is idle
    /// again.
    pub fn stop(&mut self) -> (reply: Reply)
        ensures
            (final(self)@, reply@) == stop_step(old(self)@),
    {
        match self.phase {
            Phase::Ready | Phase::Syncing | Phase::Searching => {
                self.phase = Phase::AwaitingReadyOk;
                self.entries = HashMap::new();
                let mut commands: Vec<String> = Vec::new();
                commands.push(String::from_str("stop"));
                commands.push(String::from_str("isready"));
                proof {
                    assert(table_of(self.entries@) =~= Map::empty());
                    assert(texts_of(commands@) =~= seq!["stop"@, "isready"@]);
                }
                Reply { commands, outcome: Outcome::Pending }
            },
            _ => Reply {
                commands: no_commands(),
                outcome: Outcome::Failed(EngineError::NotReady),
            },
        }
    }

    /// Gives the session up: the engine is told to quit, and the session is
    /// no more.
    pub fn quit(self) -> (reply: Reply)
        ensures
            reply@ == quit_reply(),
    {
        Reply { commands: one_command("quit"), outcome: Outcome::Pending }
    }

    fn failed_handshake(&self) -> (error: EngineError)
        ensures
            error == handshake_error(self@),
    {
        if self.restarting {
            EngineError::RestartFailed
        } else {
            EngineError::HandshakeFailed
        }
    }
}

} // verus!
