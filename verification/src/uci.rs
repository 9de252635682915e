use vstd::prelude::*;
use crate::board::{Board, after, lemma_played_unique};
use crate::fen::{fen_ok, all_digits, digits_value, fen_valid, is_digit, lemma_read_board, read_board, split_words, str_chars, unsigned_part, words};
use crate::piece_move::{uci_move, uci_move_ok};
use vstd::utf8::encode_utf8;
use vstd::string::StringSliceAdditionalSpecFns;
use crate::piece_move::Move;
use crate::pieces::Color;
use crate::search::{MATE_SCORE, SearchConfig};
use crate::eval::trunc_div;
use crate::transposition::slots_for;
use crate::text::{decimal, push_decimal, push_signed_decimal, push_str, signed_decimal};
use crate::transposition::TranspositionTable;

verus! {

/// The start position.
pub const STARTPOS: &'static str = "rnbqkbnr/pppppppp/8/8/8/8/PPPPPPPP/RNBQKBNR w KQkq - 0 1";

/// Search depth of a `go` without depth or time.
pub const DEFAULT_DEPTH: u32 = 6;

/// Search depth of a timed `go` without a depth.
pub const MAX_DEPTH_TIMED: u32 = 64;

/// Table size at start, in megabytes.
pub const DEFAULT_HASH_MB: usize = 16;

/// Smallest table size `setoption name Hash` gives.
pub const MIN_HASH_MB: usize = 1;

/// Largest table size `setoption name Hash` gives.
pub const MAX_HASH_MB: usize = 1024;

/// Whether the word `w` is `lit`.
pub(crate) fn word_is(w: &Vec<char>, lit: &str) -> (r: bool)
    ensures
        r == (w@ == lit@),
{
    let l = str_chars(lit);
    if w.len() != l.len() {
        return false;
    }
    let mut i: usize = 0;
    while i < w.len()
        invariant
            i <= w@.len(),
            w@.len() == l@.len(),
            l@ == lit@,
            forall|k: int| 0 <= k < i ==> w@[k] == l@[k],
        decreases w.len() - i,
    {
        if w[i] != l[i] {
            return false;
        }
        i = i + 1;
    }
    assert(w@ =~= l@);
    true
}

/// What `str::parse` gives for an unsigned type whose largest value is `max`:
/// an optional `+`, then one or more ASCII digits, within range.
pub open spec fn parse_unsigned(s: Seq<char>, max: int) -> Option<int> {
    let d = unsigned_part(s);
    if d.len() > 0 && all_digits(d) && digits_value(d) <= max {
        Some(digits_value(d))
    } else {
        None
    }
}

/// Parses an unsigned decimal number no larger than `max`, as `str::parse`
/// does.
fn parse_number(s: &Vec<char>, max: u64) -> (r: Option<u64>)
    ensures
        r matches Some(v) ==> parse_unsigned(s@, max as int) == Some(v as int),
        r is None ==> parse_unsigned(s@, max as int) is None,
{
    let start: usize = if s.len() > 0 && s[0] == '+' { 1 } else { 0 };
    let ghost d = unsigned_part(s@);
    proof {
        assert(d =~= s@.skip(start as int));
    }
    if start >= s.len() {
        return None;
    }
    let mut v: u64 = 0;
    let mut i: usize = start;
    proof {
        assert(d.take(0) =~= Seq::<char>::empty());
    }
    while i < s.len()
        invariant
            start <= i <= s@.len(),
            d == unsigned_part(s@),
            d =~= s@.skip(start as int),
            all_digits(d.take(i - start)),
            v == digits_value(d.take(i - start)),
            v <= max,
        decreases s.len() - i,
    {
        let c = s[i];
        proof {
            assert(d.take(i - start + 1).drop_last() =~= d.take(i - start));
            assert(d.take(i - start + 1).last() == c);
        }
        if !('0' <= c && c <= '9') {
            proof {
                assert(d[i - start] == c);
                assert(!is_digit(d[i - start]));
                assert(!all_digits(d));
            }
            return None;
        }
        let digit = (c as u32 - 48) as u64;
        if digit > max || v > (max - digit) / 10 {
            proof {
                assert(d[i - start] == c);
                if all_digits(d) {
                    lemma_digits_prefix_grow(d, (i - start) as int, max as int);
                }
            }
            return None;
        }
        v = v * 10 + digit;
        i = i + 1;
    }
    proof {
        assert(d.take(i - start) =~= d);
    }
    Some(v)
}

/// Once a prefix of digits passes `max` the whole run does.
proof fn lemma_digits_prefix_grow(d: Seq<char>, k: int, max: int)
    requires
        0 <= k < d.len(),
        all_digits(d),
        0 <= max,
        digits_value(d.take(k)) * 10 + (d[k] as int - 48) > max,
    ensures
        digits_value(d) > max,
{
    assert(d.take(k + 1).drop_last() =~= d.take(k));
    lemma_digits_grow(d, k + 1, max);
}

/// Adding digits never lowers the value.
proof fn lemma_digits_grow(d: Seq<char>, k: int, max: int)
    requires
        0 <= k <= d.len(),
        all_digits(d),
        digits_value(d.take(k)) > max,
        0 <= max,
    ensures
        digits_value(d) > max,
    decreases d.len() - k,
{
    if k == d.len() {
        assert(d.take(k) =~= d);
    } else {
        assert(d.take(k + 1).drop_last() =~= d.take(k));
        assert(is_digit(d[k]));
        lemma_digits_grow(d, k + 1, max);
    }
}

/// What a `go` command asks for: a depth limit and, for a timed search, a
/// time budget in milliseconds.
#[derive(Clone, Copy, Debug, PartialEq, Eq)]
pub struct GoArgs {
    pub max_depth: u32,
    pub time_budget_ms: Option<u64>,
}

/// The values of a `go` command read so far: depth, movetime, wtime, btime,
/// winc and binc.
pub struct GoFields {
    pub depth: Option<u32>,
    pub movetime: Option<u64>,
    pub wtime: Option<u64>,
    pub btime: Option<u64>,
    pub winc: u64,
    pub binc: u64,
}

/// A number argument: the word after a keyword, if it parses.
pub open spec fn arg_u64(ws: Seq<Seq<char>>, i: int) -> Option<u64> {
    if i < ws.len() {
        match parse_unsigned(ws[i], u64::MAX as int) {
            Some(v) => Some(v as u64),
            None => None,
        }
    } else {
        None
    }
}

/// A depth argument.
pub open spec fn arg_u32(ws: Seq<Seq<char>>, i: int) -> Option<u32> {
    if i < ws.len() {
        match parse_unsigned(ws[i], u32::MAX as int) {
            Some(v) => Some(v as u32),
            None => None,
        }
    } else {
        None
    }
}

/// Reading the words of a `go` command from word `i` on: each keyword takes
/// the next word as its value (a value that does not parse clears the field,
/// an increment falls back to 0); other words are skipped.
pub open spec fn go_scan(ws: Seq<Seq<char>>, i: int, f: GoFields) -> GoFields
    decreases ws.len() + 2 - i,
{
    if i < 0 || i >= ws.len() {
        f
    } else if ws[i] == "depth"@ {
        go_scan(ws, i + 2, GoFields { depth: arg_u32(ws, i + 1), ..f })
    } else if ws[i] == "movetime"@ {
        go_scan(ws, i + 2, GoFields { movetime: arg_u64(ws, i + 1), ..f })
    } else if ws[i] == "wtime"@ {
        go_scan(ws, i + 2, GoFields { wtime: arg_u64(ws, i + 1), ..f })
    } else if ws[i] == "btime"@ {
        go_scan(ws, i + 2, GoFields { btime: arg_u64(ws, i + 1), ..f })
    } else if ws[i] == "winc"@ {
        go_scan(ws, i + 2, GoFields { winc: match arg_u64(ws, i + 1) { Some(v) => v, None => 0 }, ..f })
    } else if ws[i] == "binc"@ {
        go_scan(ws, i + 2, GoFields { binc: match arg_u64(ws, i + 1) { Some(v) => v, None => 0 }, ..f })
    } else {
        go_scan(ws, i + 1, f)
    }
}

/// What `parse_go` answers for the words `ws` with `side` to move: an explicit
/// depth wins; a lone number is a depth; `movetime` is the budget, else a
/// thirtieth of the mover's clock plus half its increment when both clocks are
/// given; without a depth, a timed search goes to `MAX_DEPTH_TIMED` plies and an
/// untimed one to `DEFAULT_DEPTH`.
pub open spec fn go_args(ws: Seq<Seq<char>>, side: Color) -> GoArgs {
    let f = go_scan(
        ws,
        0,
        GoFields { depth: None, movetime: None, wtime: None, btime: None, winc: 0, binc: 0 },
    );
    let depth = if f.depth is None && f.movetime is None && f.wtime is None && f.btime is None && ws.len() == 1 {
        match parse_unsigned(ws[0], u32::MAX as int) {
            Some(v) => Some(v as u32),
            None => None,
        }
    } else {
        f.depth
    };
    let budget = match f.movetime {
        Some(mt) => Some(mt),
        None => match (f.wtime, f.btime) {
            (Some(wt), Some(bt)) => {
                let (t, inc) = if side == Color::White { (wt, f.winc) } else { (bt, f.binc) };
                Some((t / 30 + inc / 2) as u64)
            },
            _ => None,
        },
    };
    GoArgs {
        max_depth: match depth {
            Some(d) => d,
            None => if budget is Some {
                MAX_DEPTH_TIMED
            } else {
                DEFAULT_DEPTH
            },
        },
        time_budget_ms: budget,
    }
}

fn arg_u64_exec(ws: &Vec<Vec<char>>, i: usize) -> (r: Option<u64>)
    ensures
        r == arg_u64(ws@.map_values(|w: Vec<char>| w@), i as int),
{
    let ghost vs = ws@.map_values(|w: Vec<char>| w@);
    if i < ws.len() {
        match parse_number(&ws[i], u64::MAX) {
            Some(v) => Some(v),
            None => None,
        }
    } else {
        None
    }
}

fn arg_u32_exec(ws: &Vec<Vec<char>>, i: usize) -> (r: Option<u32>)
    ensures
        r == arg_u32(ws@.map_values(|w: Vec<char>| w@), i as int),
{
    if i < ws.len() {
        match parse_number(&ws[i], 0xffff_ffff) {
            Some(v) => Some(v as u32),
            None => None,
        }
    } else {
        None
    }
}

/// The word after a keyword's value, or the end.
fn skip_value(i: usize, n: usize) -> (r: usize)
    requires
        i < n,
    ensures
        r == (if i + 2 <= n { i + 2 } else { n as int }),
{
    if n - i >= 2 {
        i + 2
    } else {
        n
    }
}

/// Reads a `go` command's arguments.
pub fn parse_go(args: &str, side: Color) -> (r: GoArgs)
    ensures
        r == go_args(words(args@), side),
{
    let cs = str_chars(args);
    let ws = split_words(&cs);
    proof {
        assert(ws@.map_values(|w: Vec<char>| w@) =~= words(args@));
    }
    go_from_words(&ws, side)
}

/// `parse_go` on arguments already split into words.
pub fn go_from_words(ws: &Vec<Vec<char>>, side: Color) -> (r: GoArgs)
    ensures
        r == go_args(ws@.map_values(|w: Vec<char>| w@), side),
{
    let ghost vs = ws@.map_values(|w: Vec<char>| w@);
    let ghost init = GoFields { depth: None, movetime: None, wtime: None, btime: None, winc: 0, binc: 0 };
    let mut depth: Option<u32> = None;
    let mut movetime: Option<u64> = None;
    let mut wtime: Option<u64> = None;
    let mut btime: Option<u64> = None;
    let mut winc: u64 = 0;
    let mut binc: u64 = 0;
    let mut i: usize = 0;
    while i < ws.len()
        invariant
            vs == ws@.map_values(|w: Vec<char>| w@),
            i <= ws@.len(),
            go_scan(vs, 0, init) == go_scan(
                vs,
                i as int,
                GoFields { depth, movetime, wtime, btime, winc, binc },
            ),
        decreases ws.len() - i,
    {
        let ghost here = GoFields { depth, movetime, wtime, btime, winc, binc };
        let ghost i0 = i;
        proof {
            assert(vs[i as int] == ws@[i as int]@);
        }
        if word_is(&ws[i], "depth") {
            depth = arg_u32_exec(&ws, i + 1);
            i = skip_value(i, ws.len());
        } else if word_is(&ws[i], "movetime") {
            movetime = arg_u64_exec(&ws, i + 1);
            i = skip_value(i, ws.len());
        } else if word_is(&ws[i], "wtime") {
            wtime = arg_u64_exec(&ws, i + 1);
            i = skip_value(i, ws.len());
        } else if word_is(&ws[i], "btime") {
            btime = arg_u64_exec(&ws, i + 1);
            i = skip_value(i, ws.len());
        } else if word_is(&ws[i], "winc") {
            winc = match arg_u64_exec(&ws, i + 1) {
                Some(v) => v,
                None => 0,
            };
            i = skip_value(i, ws.len());
        } else if word_is(&ws[i], "binc") {
            binc = match arg_u64_exec(&ws, i + 1) {
                Some(v) => v,
                None => 0,
            };
            i = skip_value(i, ws.len());
        } else {
            i = i + 1;
        }
        proof {
            let cur = GoFields { depth, movetime, wtime, btime, winc, binc };
            if i0 + 2 > ws.len() && i != i0 + 1 {
                assert(go_scan(vs, i0 + 2, cur) == cur);
                assert(go_scan(vs, i as int, cur) == cur);
            }
        }
    }
    if depth.is_none() && movetime.is_none() && wtime.is_none() && btime.is_none() && ws.len() == 1 {
        proof {
            assert(vs[0] == ws@[0]@);
        }
        depth = match parse_number(&ws[0], 0xffff_ffff) {
            Some(v) => Some(v as u32),
            None => None,
        };
    }
    let time_budget_ms = match movetime {
        Some(mt) => Some(mt),
        None => match (wtime, btime) {
            (Some(wt), Some(bt)) => {
                let (t, inc) = if side == Color::White { (wt, winc) } else { (bt, binc) };
                Some(t / 30 + inc / 2)
            },
            _ => None,
        },
    };
    let max_depth = match depth {
        Some(d) => d,
        None => if time_budget_ms.is_some() {
            MAX_DEPTH_TIMED
        } else {
            DEFAULT_DEPTH
        },
    };
    GoArgs { max_depth, time_budget_ms }
}

/// The UCI score text: `mate N` (moves, negative when being mated) for a mate
/// score, else `cp N`.
pub open spec fn score_text(score: int) -> Seq<char> {
    let a = if score < 0 { -score } else { score };
    if a >= MATE_SCORE - 1000 {
        let moves = trunc_div(MATE_SCORE - a + 1, 2);
        "mate "@ + signed_decimal(if score > 0 { moves } else { -moves })
    } else {
        "cp "@ + signed_decimal(score)
    }
}

/// Writes a score for a UCI `info` line.
pub fn format_score(score: i32) -> (r: String)
    requires
        score != i32::MIN,
    ensures
        r@ == score_text(score as int),
{
    let a = if score < 0 { -score } else { score };
    let mut s = String::new();
    proof {
        reveal_strlit("mate ");
        reveal_strlit("cp ");
    }
    if a >= MATE_SCORE - 1000 {
        let ply_to_mate = MATE_SCORE - a;
        let moves_to_mate = (ply_to_mate + 1) / 2;
        let signed = if score > 0 { moves_to_mate } else { -moves_to_mate };
        push_str(&mut s, "mate ");
        push_signed_decimal(&mut s, signed as i64);
    } else {
        push_str(&mut s, "cp ");
        push_signed_decimal(&mut s, score as i64);
    }
    s
}

/// ASCII lower case.
pub open spec fn lower(c: char) -> char {
    if 'A' <= c && c <= 'Z' {
        ((c as u8) + 32) as char
    } else {
        c
    }
}

/// A word in ASCII lower case.
pub open spec fn lowered(w: Seq<char>) -> Seq<char> {
    Seq::new(w.len(), |i: int| lower(w[i]))
}

/// What `parse_bool` reads: `true`, `1`, `on`, `yes` and `false`, `0`, `off`,
/// `no`, in any ASCII case, with white space around.
pub open spec fn bool_word(s: Seq<char>) -> Option<bool> {
    let ws = words(s);
    if ws.len() != 1 {
        None
    } else {
        let w = lowered(ws[0]);
        if w == "true"@ || w == "1"@ || w == "on"@ || w == "yes"@ {
            Some(true)
        } else if w == "false"@ || w == "0"@ || w == "off"@ || w == "no"@ {
            Some(false)
        } else {
            None
        }
    }
}

fn lower_word(w: &Vec<char>) -> (r: Vec<char>)
    ensures
        r@ == lowered(w@),
{
    let mut out: Vec<char> = Vec::new();
    let mut i: usize = 0;
    while i < w.len()
        invariant
            i <= w@.len(),
            out@ =~= Seq::new(i as nat, |k: int| lower(w@[k])),
        decreases w.len() - i,
    {
        let c = w[i];
        let l = if 'A' <= c && c <= 'Z' { ((c as u8) + 32) as char } else { c };
        out.push(l);
        i = i + 1;
    }
    out
}

/// Reads an option's boolean value.
pub fn parse_bool(s: &str) -> (r: Option<bool>)
    ensures
        r == bool_word(s@),
{
    let cs = str_chars(s);
    let ws = split_words(&cs);
    if ws.len() != 1 {
        return None;
    }
    let w = lower_word(&ws[0]);
    if word_is(&w, "true") || word_is(&w, "1") || word_is(&w, "on") || word_is(&w, "yes") {
        Some(true)
    } else if word_is(&w, "false") || word_is(&w, "0") || word_is(&w, "off") || word_is(&w, "no") {
        Some(false)
    } else {
        None
    }
}

/// Words joined by single spaces.
pub open spec fn joined(ws: Seq<Seq<char>>) -> Seq<char>
    decreases ws.len(),
{
    if ws.len() == 0 {
        Seq::empty()
    } else if ws.len() == 1 {
        ws[0]
    } else {
        joined(ws.drop_last()) + seq![' '] + ws.last()
    }
}

/// Where the first `value` word stands among words `1 ..`, or the end.
pub open spec fn value_at(ws: Seq<Seq<char>>, i: int) -> int
    decreases ws.len() - i,
{
    if i >= ws.len() || i < 1 {
        ws.len() as int
    } else if ws[i] == "value"@ {
        i
    } else {
        value_at(ws, i + 1)
    }
}

/// What `parse_setoption` reads from `setoption` arguments: after a first
/// word `name`, the words up to the first `value` are the name and the words
/// after it the value, each joined by single spaces; no name, no option.
pub open spec fn option_words(s: Seq<char>) -> Option<(Seq<char>, Seq<char>)> {
    options_in(words(s))
}

/// `option_words` on arguments already split into words.
pub open spec fn options_in(ws: Seq<Seq<char>>) -> Option<(Seq<char>, Seq<char>)> {
    if ws.len() == 0 || ws[0] != "name"@ {
        None
    } else {
        let v = value_at(ws, 1);
        if v == 1 {
            None
        } else {
            Some((joined(ws.subrange(1, v)), joined(ws.subrange(if v < ws.len() { v + 1 } else { v }, ws.len() as int))))
        }
    }
}

fn join_words(ws: &Vec<Vec<char>>, lo: usize, hi: usize) -> (r: String)
    requires
        lo <= hi <= ws@.len(),
    ensures
        r@ == joined(ws@.map_values(|w: Vec<char>| w@).subrange(lo as int, hi as int)),
{
    let ghost vs = ws@.map_values(|w: Vec<char>| w@);
    let mut s = String::new();
    let mut i = lo;
    assert(vs.subrange(lo as int, lo as int) =~= Seq::<Seq<char>>::empty());
    while i < hi
        invariant
            lo <= i <= hi <= ws@.len(),
            vs == ws@.map_values(|w: Vec<char>| w@),
            s@ == joined(vs.subrange(lo as int, i as int)),
        decreases hi - i,
    {
        let ghost before = s@;
        if i > lo {
            s.push(' ');
        }
        let w = &ws[i];
        let mut k: usize = 0;
        let ghost mid = s@;
        while k < w.len()
            invariant
                k <= w@.len(),
                s@ == mid + w@.subrange(0, k as int),
            decreases w.len() - k,
        {
            s.push(w[k]);
            proof {
                assert(w@.subrange(0, k + 1) =~= w@.subrange(0, k as int).push(w@[k as int]));
            }
            k = k + 1;
        }
        proof {
            assert(w@.subrange(0, w@.len() as int) =~= w@);
            assert(vs[i as int] == w@);
            let sub = vs.subrange(lo as int, i + 1);
            assert(sub.drop_last() =~= vs.subrange(lo as int, i as int));
            assert(sub.last() == w@);
            if i == lo {
                assert(sub.len() == 1);
                assert(s@ =~= joined(sub));
            } else {
                assert(s@ =~= joined(sub));
            }
        }
        i = i + 1;
    }
    s
}

/// Reads `setoption` arguments into a name and a value.
pub fn parse_setoption(args: &str) -> (r: Option<(String, String)>)
    ensures
        r is None <==> option_words(args@) is None,
        r matches Some((n, v)) ==> option_words(args@) == Some((n@, v@)),
{
    let cs = str_chars(args);
    let ws = split_words(&cs);
    proof {
        assert(ws@.map_values(|w: Vec<char>| w@) =~= words(args@));
    }
    setoption_from_words(&ws)
}

/// `parse_setoption` on arguments already split into words.
fn setoption_from_words(ws: &Vec<Vec<char>>) -> (r: Option<(String, String)>)
    ensures
        r is None <==> options_in(ws@.map_values(|w: Vec<char>| w@)) is None,
        r matches Some((n, v)) ==> options_in(ws@.map_values(|w: Vec<char>| w@)) == Some((n@, v@)),
{
    let ghost vs = ws@.map_values(|w: Vec<char>| w@);
    if ws.len() == 0 || !word_is(&ws[0], "name") {
        proof {
            if ws.len() > 0 {
                assert(vs[0] == ws@[0]@);
            }
        }
        return None;
    }
    proof {
        assert(vs[0] == ws@[0]@);
    }
    let mut v: usize = 1;
    while v < ws.len() && !word_is(&ws[v], "value")
        invariant
            1 <= v <= ws@.len(),
            vs == ws@.map_values(|w: Vec<char>| w@),
            value_at(vs, 1) == value_at(vs, v as int),
        decreases ws.len() - v,
    {
        proof {
            assert(vs[v as int] == ws@[v as int]@);
        }
        v = v + 1;
    }
    proof {
        if v < ws.len() {
            assert(vs[v as int] == ws@[v as int]@);
        }
        assert(value_at(vs, v as int) == v);
    }
    if v == 1 {
        return None;
    }
    let name = join_words(&ws, 1, v);
    let value = join_words(&ws, if v < ws.len() { v + 1 } else { v }, ws.len());
    Some((name, value))
}

/// The number of boolean option `name` (in the order the options are
/// listed), or -1.
pub open spec fn toggle_index(name: Seq<char>) -> int {
    if name == "MoveOrdering"@ {
        0
    } else if name == "Quiescence"@ {
        1
    } else if name == "IterativeDeepening"@ {
        2
    } else if name == "TranspositionTable"@ {
        3
    } else if name == "PieceSquareTables"@ {
        4
    } else if name == "PawnStructure"@ {
        5
    } else if name == "BishopPair"@ {
        6
    } else if name == "KingSafety"@ {
        7
    } else if name == "KillerMoves"@ {
        8
    } else if name == "HistoryHeuristic"@ {
        9
    } else if name == "MidSearchAbort"@ {
        10
    } else if name == "NullMovePruning"@ {
        11
    } else if name == "AspirationWindows"@ {
        12
    } else if name == "LateMoveReductions"@ {
        13
    } else if name == "FutilityPruning"@ {
        14
    } else if name == "Razoring"@ {
        15
    } else {
        -1
    }
}

/// The configuration with toggle `k` set to `b`.
pub open spec fn set_toggle(c: SearchConfig, k: int, b: bool) -> SearchConfig {
    SearchConfig {
        move_ordering: if k == 0 { b } else { c.move_ordering },
        quiescence: if k == 1 { b } else { c.quiescence },
        iterative_deepening: if k == 2 { b } else { c.iterative_deepening },
        transposition_table: if k == 3 { b } else { c.transposition_table },
        piece_square_tables: if k == 4 { b } else { c.piece_square_tables },
        pawn_structure: if k == 5 { b } else { c.pawn_structure },
        bishop_pair: if k == 6 { b } else { c.bishop_pair },
        king_safety: if k == 7 { b } else { c.king_safety },
        killer_moves: if k == 8 { b } else { c.killer_moves },
        history_heuristic: if k == 9 { b } else { c.history_heuristic },
        mid_search_abort: if k == 10 { b } else { c.mid_search_abort },
        null_move_pruning: if k == 11 { b } else { c.null_move_pruning },
        aspiration_windows: if k == 12 { b } else { c.aspiration_windows },
        late_move_reductions: if k == 13 { b } else { c.late_move_reductions },
        futility_pruning: if k == 14 { b } else { c.futility_pruning },
        razoring: if k == 15 { b } else { c.razoring },
    }
}

/// The configuration with boolean option `name` set to `b`; another name
/// leaves it as it was.
pub open spec fn set_field(c: SearchConfig, name: Seq<char>, b: bool) -> SearchConfig {
    set_toggle(c, toggle_index(name), b)
}

/// The configuration with boolean option `name` set from `value`; a value
/// that does not read as a boolean leaves it as it was.
pub open spec fn with_option(c: SearchConfig, name: Seq<char>, value: Seq<char>) -> SearchConfig {
    match bool_word(value) {
        None => c,
        Some(b) => set_field(c, name, b),
    }
}

/// `Hash` is not a boolean option.
proof fn lemma_hash_not_toggle()
    ensures
        toggle_index("Hash"@) == -1,
{
    reveal_strlit("Hash");
    reveal_strlit("MoveOrdering");
    reveal_strlit("Quiescence");
    reveal_strlit("IterativeDeepening");
    reveal_strlit("TranspositionTable");
    reveal_strlit("PieceSquareTables");
    reveal_strlit("PawnStructure");
    reveal_strlit("BishopPair");
    reveal_strlit("KingSafety");
    reveal_strlit("KillerMoves");
    reveal_strlit("HistoryHeuristic");
    reveal_strlit("MidSearchAbort");
    reveal_strlit("NullMovePruning");
    reveal_strlit("AspirationWindows");
    reveal_strlit("LateMoveReductions");
    reveal_strlit("FutilityPruning");
    reveal_strlit("Razoring");
    assert("Hash"@.len() == 4);
    assert("MoveOrdering"@.len() != 4);
    assert("Quiescence"@.len() != 4);
    assert("IterativeDeepening"@.len() != 4);
    assert("TranspositionTable"@.len() != 4);
    assert("PieceSquareTables"@.len() != 4);
    assert("PawnStructure"@.len() != 4);
    assert("BishopPair"@.len() != 4);
    assert("KingSafety"@.len() != 4);
    assert("KillerMoves"@.len() != 4);
    assert("HistoryHeuristic"@.len() != 4);
    assert("MidSearchAbort"@.len() != 4);
    assert("NullMovePruning"@.len() != 4);
    assert("AspirationWindows"@.len() != 4);
    assert("LateMoveReductions"@.len() != 4);
    assert("FutilityPruning"@.len() != 4);
    assert("Razoring"@.len() != 4);
}

/// The number of boolean option `n`, or -1.
fn toggle_of(n: &Vec<char>) -> (r: i32)
    ensures
        r == toggle_index(n@),
{
    if word_is(n, "MoveOrdering") {
        0
    } else if word_is(n, "Quiescence") {
        1
    } else if word_is(n, "IterativeDeepening") {
        2
    } else if word_is(n, "TranspositionTable") {
        3
    } else if word_is(n, "PieceSquareTables") {
        4
    } else if word_is(n, "PawnStructure") {
        5
    } else if word_is(n, "BishopPair") {
        6
    } else if word_is(n, "KingSafety") {
        7
    } else if word_is(n, "KillerMoves") {
        8
    } else if word_is(n, "HistoryHeuristic") {
        9
    } else if word_is(n, "MidSearchAbort") {
        10
    } else if word_is(n, "NullMovePruning") {
        11
    } else if word_is(n, "AspirationWindows") {
        12
    } else if word_is(n, "LateMoveReductions") {
        13
    } else if word_is(n, "FutilityPruning") {
        14
    } else if word_is(n, "Razoring") {
        15
    } else {
        -1
    }
}

/// Sets toggle `k` to `b`.
fn set_toggle_exec(config: &mut SearchConfig, k: i32, b: bool)
    ensures
        final(config).move_ordering == (if k == 0 { b } else { old(config).move_ordering }),
        final(config).quiescence == (if k == 1 { b } else { old(config).quiescence }),
        final(config).iterative_deepening == (if k == 2 { b } else { old(config).iterative_deepening }),
        final(config).transposition_table == (if k == 3 { b } else { old(config).transposition_table }),
        final(config).piece_square_tables == (if k == 4 { b } else { old(config).piece_square_tables }),
        final(config).pawn_structure == (if k == 5 { b } else { old(config).pawn_structure }),
        final(config).bishop_pair == (if k == 6 { b } else { old(config).bishop_pair }),
        final(config).king_safety == (if k == 7 { b } else { old(config).king_safety }),
        final(config).killer_moves == (if k == 8 { b } else { old(config).killer_moves }),
        final(config).history_heuristic == (if k == 9 { b } else { old(config).history_heuristic }),
        final(config).mid_search_abort == (if k == 10 { b } else { old(config).mid_search_abort }),
        final(config).null_move_pruning == (if k == 11 { b } else { old(config).null_move_pruning }),
        final(config).aspiration_windows == (if k == 12 { b } else { old(config).aspiration_windows }),
        final(config).late_move_reductions == (if k == 13 { b } else { old(config).late_move_reductions }),
        final(config).futility_pruning == (if k == 14 { b } else { old(config).futility_pruning }),
        final(config).razoring == (if k == 15 { b } else { old(config).razoring }),
{
    if k == 0 {
        config.move_ordering = b;
    }
    if k == 1 {
        config.quiescence = b;
    }
    if k == 2 {
        config.iterative_deepening = b;
    }
    if k == 3 {
        config.transposition_table = b;
    }
    if k == 4 {
        config.piece_square_tables = b;
    }
    if k == 5 {
        config.pawn_structure = b;
    }
    if k == 6 {
        config.bishop_pair = b;
    }
    if k == 7 {
        config.king_safety = b;
    }
    if k == 8 {
        config.killer_moves = b;
    }
    if k == 9 {
        config.history_heuristic = b;
    }
    if k == 10 {
        config.mid_search_abort = b;
    }
    if k == 11 {
        config.null_move_pruning = b;
    }
    if k == 12 {
        config.aspiration_windows = b;
    }
    if k == 13 {
        config.late_move_reductions = b;
    }
    if k == 14 {
        config.futility_pruning = b;
    }
    if k == 15 {
        config.razoring = b;
    }
}

/// The names of the boolean options.
pub open spec fn bool_option(name: Seq<char>) -> bool {
    toggle_index(name) >= 0
}

/// The table size a `Hash` value asks for, if it reads as a number.
pub open spec fn hash_request(value: Seq<char>) -> Option<int> {
    let ws = words(value);
    if ws.len() == 1 {
        parse_unsigned(ws[0], usize::MAX as int)
    } else {
        None
    }
}

/// A requested table size brought into `MIN_HASH_MB ..= MAX_HASH_MB`.
pub open spec fn clamp_mb(mb: int) -> int {
    if mb < MIN_HASH_MB {
        MIN_HASH_MB as int
    } else if mb > MAX_HASH_MB {
        MAX_HASH_MB as int
    } else {
        mb
    }
}

/// Applies a `setoption` command: a boolean option sets its toggle, `Hash`
/// replaces the table with an empty one of the asked size (kept within
/// `MIN_HASH_MB ..= MAX_HASH_MB`). An unknown option's name is handed back for
/// the caller to report.
pub fn apply_setoption(args: &str, config: &mut SearchConfig, tt: &mut TranspositionTable) -> (r: Option<String>)
    requires
        old(tt).wf(),
    ensures
        final(tt).wf(),
        setoption_done(option_words(args@), *old(config), *final(config), *old(tt), *final(tt), r),
{
    let cs = str_chars(args);
    let ws = split_words(&cs);
    proof {
        assert(ws@.map_values(|w: Vec<char>| w@) =~= words(args@));
    }
    setoption_words(&ws, config, tt)
}

/// What a `setoption` read as `opt` does: nothing without a name; else the
/// configuration takes the option, a `Hash` with a number gets an empty table
/// of that size (clamped), any other table stays, and an unknown name is
/// handed back.
pub open spec fn setoption_done(
    opt: Option<(Seq<char>, Seq<char>)>,
    c0: SearchConfig,
    c1: SearchConfig,
    t0: TranspositionTable,
    t1: TranspositionTable,
    r: Option<String>,
) -> bool {
    &&& setoption_state(opt, c0, c1, t0, t1)
    &&& match opt {
        None => r is None,
        Some((n, _)) => {
            &&& (r is Some <==> !bool_option(n) && n != "Hash"@)
            &&& (r matches Some(u) ==> u@ == n)
        },
    }
}

/// The configuration and table after a `setoption` read as `opt`.
pub open spec fn setoption_state(
    opt: Option<(Seq<char>, Seq<char>)>,
    c0: SearchConfig,
    c1: SearchConfig,
    t0: TranspositionTable,
    t1: TranspositionTable,
) -> bool {
    match opt {
        None => c1 == c0 && t1 == t0,
        Some((n, v)) => {
            &&& c1 == with_option(c0, n, v)
            &&& (n == "Hash"@ && hash_request(v) is Some) ==> {
                &&& slots_for(clamp_mb(hash_request(v).unwrap()), t1.slots().len() as int)
                &&& forall|i: int| 0 <= i < t1.slots().len() ==> #[trigger] t1.slots()[i] is None
            }
            &&& !(n == "Hash"@ && hash_request(v) is Some) ==> t1 == t0
        },
    }
}

/// `apply_setoption` on arguments already split into words.
pub fn setoption_words(ws: &Vec<Vec<char>>, config: &mut SearchConfig, tt: &mut TranspositionTable) -> (r: Option<String>)
    requires
        old(tt).wf(),
    ensures
        final(tt).wf(),
        options_in(ws@.map_values(|w: Vec<char>| w@)) is None ==> *final(config) == *old(config) && *final(tt) == *old(tt) && r is None,
        options_in(ws@.map_values(|w: Vec<char>| w@)) matches Some((n, v)) ==> {
            &&& *final(config) == with_option(*old(config), n, v)
            &&& (r is Some <==> !bool_option(n) && n != "Hash"@)
            &&& (r matches Some(u) ==> u@ == n)
            &&& (n == "Hash"@ && hash_request(v) is Some) ==> {
                &&& slots_for(clamp_mb(hash_request(v).unwrap()), final(tt).slots().len() as int)
                &&& forall|i: int| 0 <= i < final(tt).slots().len() ==> #[trigger] final(tt).slots()[i] is None
            }
            &&& !(n == "Hash"@ && hash_request(v) is Some) ==> *final(tt) == *old(tt)
        },
{
    let (name, value) = match setoption_from_words(ws) {
        Some(p) => p,
        None => {
            return None;
        },
    };
    let n = str_chars(name.as_str());
    proof {
        lemma_hash_not_toggle();
    }
    let k = toggle_of(&n);
    if k >= 0 {
        if let Some(b) = parse_bool(value.as_str()) {
            set_toggle_exec(config, k, b);
        }
        None
    } else if word_is(&n, "Hash") {
        let vc = str_chars(value.as_str());
        let vw = split_words(&vc);
        if vw.len() == 1 {
            proof {
                assert(vw@.map_values(|w: Vec<char>| w@) =~= words(value@));
            }
            match parse_number(&vw[0], usize::MAX as u64) {
                Some(mb) => {
                    let clamped: usize = if mb < MIN_HASH_MB as u64 {
                        MIN_HASH_MB
                    } else if mb > MAX_HASH_MB as u64 {
                        MAX_HASH_MB
                    } else {
                        mb as usize
                    };
                    proof {
                        assert(vw@[0]@ == words(value@)[0]);
                        assert(hash_request(value@) == Some(mb as int));
                        assert(clamp_mb(mb as int) == clamped as int);
                    }
                    *tt = TranspositionTable::new(clamped);
                },
                None => {},
            }
        }
        None
    } else {
        Some(name)
    }
}

/// `true` or `false`.
pub open spec fn bool_text(b: bool) -> Seq<char> {
    if b {
        "true"@
    } else {
        "false"@
    }
}

/// The line announcing a boolean option and its default.
pub open spec fn check_line(name: Seq<char>, v: bool) -> Seq<char> {
    "option name "@ + name + " type check default "@ + bool_text(v)
}

/// The line announcing the table size option.
pub open spec fn hash_line() -> Seq<char> {
    "option name Hash type spin default "@ + decimal(DEFAULT_HASH_MB as nat) + " min "@ + decimal(
        MIN_HASH_MB as nat,
    ) + " max "@ + decimal(MAX_HASH_MB as nat)
}

/// The name of toggle `k`, in the order the options are listed.
pub open spec fn option_name(k: int) -> Seq<char> {
    if k == 0 {
        "MoveOrdering"@
    } else if k == 1 {
        "Quiescence"@
    } else if k == 2 {
        "IterativeDeepening"@
    } else if k == 3 {
        "TranspositionTable"@
    } else if k == 4 {
        "PieceSquareTables"@
    } else if k == 5 {
        "PawnStructure"@
    } else if k == 6 {
        "BishopPair"@
    } else if k == 7 {
        "KingSafety"@
    } else if k == 8 {
        "KillerMoves"@
    } else if k == 9 {
        "HistoryHeuristic"@
    } else if k == 10 {
        "MidSearchAbort"@
    } else if k == 11 {
        "NullMovePruning"@
    } else if k == 12 {
        "AspirationWindows"@
    } else if k == 13 {
        "LateMoveReductions"@
    } else if k == 14 {
        "FutilityPruning"@
    } else {
        "Razoring"@
    }
}

/// The value of toggle `k` in `c`.
pub open spec fn toggle_value(c: SearchConfig, k: int) -> bool {
    if k == 0 {
        c.move_ordering
    } else if k == 1 {
        c.quiescence
    } else if k == 2 {
        c.iterative_deepening
    } else if k == 3 {
        c.transposition_table
    } else if k == 4 {
        c.piece_square_tables
    } else if k == 5 {
        c.pawn_structure
    } else if k == 6 {
        c.bishop_pair
    } else if k == 7 {
        c.king_safety
    } else if k == 8 {
        c.killer_moves
    } else if k == 9 {
        c.history_heuristic
    } else if k == 10 {
        c.mid_search_abort
    } else if k == 11 {
        c.null_move_pruning
    } else if k == 12 {
        c.aspiration_windows
    } else if k == 13 {
        c.late_move_reductions
    } else if k == 14 {
        c.futility_pruning
    } else {
        c.razoring
    }
}

/// The option lines of the UCI handshake, every toggle with its current value,
/// then the table size.
pub open spec fn option_text(c: SearchConfig) -> Seq<Seq<char>> {
    Seq::new(16, |k: int| check_line(option_name(k), toggle_value(c, k))) + seq![hash_line()]
}

fn check_option(name: &str, v: bool) -> (r: String)
    requires
        name.is_ascii(),
    ensures
        r@ == check_line(name@, v),
{
    let mut s = String::new();
    proof {
        reveal_strlit("option name ");
        reveal_strlit(" type check default ");
        reveal_strlit("true");
        reveal_strlit("false");
    }
    push_str(&mut s, "option name ");
    push_str(&mut s, name);
    push_str(&mut s, " type check default ");
    if v {
        push_str(&mut s, "true");
    } else {
        push_str(&mut s, "false");
    }
    s
}

/// The name of toggle `k`.
fn option_name_str(k: usize) -> (r: &'static str)
    requires
        k < 16,
    ensures
        r@ == option_name(k as int),
        r.is_ascii(),
{
    proof {
        reveal_strlit("MoveOrdering");
        reveal_strlit("Quiescence");
        reveal_strlit("IterativeDeepening");
        reveal_strlit("TranspositionTable");
        reveal_strlit("PieceSquareTables");
        reveal_strlit("PawnStructure");
        reveal_strlit("BishopPair");
        reveal_strlit("KingSafety");
        reveal_strlit("KillerMoves");
        reveal_strlit("HistoryHeuristic");
        reveal_strlit("MidSearchAbort");
        reveal_strlit("NullMovePruning");
        reveal_strlit("AspirationWindows");
        reveal_strlit("LateMoveReductions");
        reveal_strlit("FutilityPruning");
        reveal_strlit("Razoring");
    }
    match k {
        0 => "MoveOrdering",
        1 => "Quiescence",
        2 => "IterativeDeepening",
        3 => "TranspositionTable",
        4 => "PieceSquareTables",
        5 => "PawnStructure",
        6 => "BishopPair",
        7 => "KingSafety",
        8 => "KillerMoves",
        9 => "HistoryHeuristic",
        10 => "MidSearchAbort",
        11 => "NullMovePruning",
        12 => "AspirationWindows",
        13 => "LateMoveReductions",
        14 => "FutilityPruning",
        _ => "Razoring",
    }
}

/// The value of toggle `k`.
fn toggle_value_exec(c: &SearchConfig, k: usize) -> (r: bool)
    requires
        k < 16,
    ensures
        r == toggle_value(*c, k as int),
{
    match k {
        0 => c.move_ordering,
        1 => c.quiescence,
        2 => c.iterative_deepening,
        3 => c.transposition_table,
        4 => c.piece_square_tables,
        5 => c.pawn_structure,
        6 => c.bishop_pair,
        7 => c.king_safety,
        8 => c.killer_moves,
        9 => c.history_heuristic,
        10 => c.mid_search_abort,
        11 => c.null_move_pruning,
        12 => c.aspiration_windows,
        13 => c.late_move_reductions,
        14 => c.futility_pruning,
        _ => c.razoring,
    }
}

/// The `option` lines of the UCI handshake.
pub fn option_lines(c: &SearchConfig) -> (r: Vec<String>)
    ensures
        r@.map_values(|l: String| l@) == option_text(*c),
{
    let mut lines: Vec<String> = Vec::new();
    let mut k: usize = 0;
    while k < 16
        invariant
            k <= 16,
            lines@.map_values(|l: String| l@) =~= Seq::new(k as nat, |j: int| check_line(option_name(j), toggle_value(*c, j))),
        decreases 16 - k,
    {
        let line = check_option(option_name_str(k), toggle_value_exec(c, k));
        let ghost before = lines@.map_values(|l: String| l@);
        lines.push(line);
        proof {
            assert(lines@.map_values(|l: String| l@) =~= before.push(line@));
        }
        k = k + 1;
    }
    let mut h = String::new();
    proof {
        reveal_strlit("option name Hash type spin default ");
        reveal_strlit(" min ");
        reveal_strlit(" max ");
    }
    push_str(&mut h, "option name Hash type spin default ");
    push_decimal(&mut h, DEFAULT_HASH_MB as u64);
    push_str(&mut h, " min ");
    push_decimal(&mut h, MIN_HASH_MB as u64);
    push_str(&mut h, " max ");
    push_decimal(&mut h, MAX_HASH_MB as u64);
    lines.push(h);
    proof {
        assert(lines@.map_values(|l: String| l@) =~= option_text(*c));
    }
    lines
}

/// A word's characters as a string.
fn word_string(w: &Vec<char>) -> (r: String)
    ensures
        r@ == w@,
{
    let mut s = String::new();
    let mut k: usize = 0;
    while k < w.len()
        invariant
            k <= w@.len(),
            s@ == w@.subrange(0, k as int),
        decreases w.len() - k,
    {
        s.push(w[k]);
        proof {
            assert(w@.subrange(0, k + 1) =~= w@.subrange(0, k as int).push(w@[k as int]));
        }
        k = k + 1;
    }
    proof {
        assert(w@.subrange(0, w@.len() as int) =~= w@);
    }
    s
}

/// The first word from `i` on that is `moves`, or the end.
pub open spec fn moves_at(ws: Seq<Seq<char>>, i: int) -> int
    decreases ws.len() - i,
{
    if i >= ws.len() {
        ws.len() as int
    } else if ws[i] == "moves"@ {
        i
    } else {
        moves_at(ws, i + 1)
    }
}

/// The words from `i` on read as UCI moves and played in turn on `b`; none
/// once a word is not a move or its move cannot be played.
pub open spec fn play_words(b: Board, ws: Seq<Seq<char>>, i: int) -> Option<Board>
    decreases ws.len() - i,
{
    if i >= ws.len() {
        Some(b)
    } else {
        let bytes = encode_utf8(ws[i]);
        if !uci_move_ok(bytes) {
            None
        } else {
            let m = uci_move(bytes);
            if !b.checked_applicable(m) || b.move_outcome(m) is Err {
                None
            } else {
                play_words(after(b, m), ws, i + 1)
            }
        }
    }
}

/// What follows the position at word `i`: nothing, or `moves` and the moves.
pub open spec fn then_moves(b: Board, ws: Seq<Seq<char>>, i: int) -> Option<Board> {
    if i >= ws.len() {
        Some(b)
    } else if ws[i] != "moves"@ {
        None
    } else {
        play_words(b, ws, i + 1)
    }
}

/// The board a `position` command's words set up: `startpos`, or `fen` and
/// the words of a FEN up to `moves`; then the moves, if any.
pub open spec fn position_of(ws: Seq<Seq<char>>) -> Option<Board> {
    if ws.len() == 0 {
        None
    } else if ws[0] == "startpos"@ {
        if fen_ok(STARTPOS@) {
            then_moves(read_board(STARTPOS@), ws, 1)
        } else {
            None
        }
    } else if ws[0] == "fen"@ {
        let e = moves_at(ws, 1);
        let f = joined(ws.subrange(1, e));
        if e == 1 || !fen_ok(f) {
            None
        } else {
            then_moves(read_board(f), ws, e)
        }
    } else {
        None
    }
}

/// Reads a `position` command: `startpos` or `fen` and a FEN, then optionally
/// `moves` and the moves to play. `None` for anything else, a FEN that does not
/// read, or a move that does not read or cannot be played.
pub fn parse_position(args: &str) -> (r: Option<Board>)
    ensures
        r == position_of(words(args@)),
{
    let cs = str_chars(args);
    let ws = split_words(&cs);
    proof {
        assert(ws@.map_values(|v: Vec<char>| v@) =~= words(args@));
    }
    position_from_words(&ws)
}

/// `parse_position` on arguments already split into words.
pub fn position_from_words(ws: &Vec<Vec<char>>) -> (r: Option<Board>)
    ensures
        r == position_of(ws@.map_values(|v: Vec<char>| v@)),
{
    let ghost w = ws@.map_values(|v: Vec<char>| v@);
    proof {
        assert(ws@.len() == w.len());
        assert forall|k: int| 0 <= k < w.len() implies (#[trigger] ws@[k])@ == w[k] by {}
    }
    if ws.len() == 0 {
        return None;
    }
    let mut i: usize = 1;
    let mut board = if word_is(&ws[0], "startpos") {
        if !fen_valid(STARTPOS) {
            return None;
        }
        let b = Board::parse(STARTPOS);
        proof {
            lemma_read_board(STARTPOS@, b);
        }
        b
    } else if word_is(&ws[0], "fen") {
        let mut fen = String::new();
        while i < ws.len() && !word_is(&ws[i], "moves")
            invariant
                1 <= i <= ws@.len(),
                ws@.len() == w.len(),
                forall|k: int| 0 <= k < w.len() ==> (#[trigger] ws@[k])@ == w[k],
                moves_at(w, 1) == moves_at(w, i as int),
                fen@ == joined(w.subrange(1, i as int)),
            decreases ws.len() - i,
        {
            if i > 1 {
                fen.push(' ');
            }
            let ghost before = fen@;
            let wd = &ws[i];
            let mut k: usize = 0;
            while k < wd.len()
                invariant
                    k <= wd@.len(),
                    fen@ == before + wd@.subrange(0, k as int),
                decreases wd.len() - k,
            {
                fen.push(wd[k]);
                proof {
                    assert(wd@.subrange(0, k + 1) =~= wd@.subrange(0, k as int).push(wd@[k as int]));
                }
                k = k + 1;
            }
            proof {
                assert(wd@.subrange(0, wd@.len() as int) =~= wd@);
                let sub = w.subrange(1, i + 1);
                assert(sub.drop_last() =~= w.subrange(1, i as int));
                assert(sub.last() == w[i as int]);
                if i == 1 {
                    assert(sub.len() == 1);
                    assert(fen@ =~= joined(sub));
                } else {
                    assert(fen@ =~= joined(sub));
                }
            }
            i = i + 1;
        }
        proof {
            assert(moves_at(w, 1) == i);
        }
        if i == 1 {
            return None;
        }
        if !fen_valid(fen.as_str()) {
            return None;
        }
        let b = Board::parse(fen.as_str());
        proof {
            lemma_read_board(fen@, b);
        }
        b
    } else {
        return None;
    };
    if i < ws.len() {
        if !word_is(&ws[i], "moves") {
            return None;
        }
        i = i + 1;
        while i < ws.len()
            invariant
                1 <= i <= ws@.len(),
                ws@.len() == w.len(),
                forall|k: int| 0 <= k < w.len() ==> (#[trigger] ws@[k])@ == w[k],
                w == ws@.map_values(|v: Vec<char>| v@),
                position_of(w) == play_words(board, w, i as int),
            decreases ws.len() - i,
        {
            let tok = word_string(&ws[i]);
            let ts = tok.as_str();
            proof {
                assert(ts@ == w[i as int]);
                assert(ts.spec_bytes() == encode_utf8(w[i as int]));
            }
            if !Move::uci_well_formed(ts) {
                assert(play_words(board, w, i as int) is None);
                return None;
            }
            let m = Move::from_uci(ts);
            if !board.can_apply(m) {
                assert(play_words(board, w, i as int) is None);
                return None;
            }
            let ghost b0 = board;
            match board.apply_move(m) {
                Ok(()) => {},
                Err(_) => {
                    return None;
                },
            }
            proof {
                lemma_played_unique(b0, m, board, after(b0, m));
            }
            i = i + 1;
        }
    }
    Some(board)
}

/// The engine: the position it plays from.
pub struct Torte {
    pub board: Board,
}

impl Torte {
    /// An engine holding an empty board, white to move.
    pub fn new() -> (r: Torte)
        ensures
            forall|i: int| 0 <= i < 12 ==> (#[trigger] r.board.bbs[i])@ == Set::<int>::empty(),
            forall|c: int| 0 <= c < 2 ==> (#[trigger] r.board.player_bbs[c])@ == Set::<int>::empty(),
            r.board.side_to_move == Color::White,
            r.board.castling.0 == 0,
            r.board.en_passant is None,
            r.board.halfmove_clock == 0,
            r.board.fullmove_number == 1,
    {
        Torte { board: Board::new() }
    }
}

} // verus!
