use vstd::prelude::*;
use vstd::string::StringSliceAdditionalSpecFns;
use std::time::{Duration, Instant};
use crate::board::Board;
use crate::fen::{fen_ok, fen_valid, lemma_read_board, read_board, split_words, str_chars, words};
use crate::generator::legal;
use crate::piece_move::{Move, promotion_of_byte, uci_move, uci_move_ok, uci_text};
use crate::search::{
    AbortSignal, SearchConfig, clock_now, elapsed_since, find_best_move_with_tt, history_ok, in_range,
    iterative_deepening_with_abort, new_history, new_killers, no_moves, search_ok, search_ready,
};
use crate::text::{decimal, push_decimal, push_str};
use crate::transposition::TranspositionTable;
use crate::uci::{
    GoArgs, STARTPOS, bool_option, go_args, go_from_words, option_lines, option_text, options_in,
    position_from_words, position_of, score_text, setoption_state, setoption_words, format_score, word_is,
};

verus! {

/// What the engine does in answer to one UCI line.
pub enum UciAction {
    /// Print this line.
    Say(String),
    /// Print the board and the search configuration.
    ShowBoard,
    /// Search with these arguments and report the best move.
    Go(GoArgs),
    /// Stop reading commands.
    Quit,
    /// Stop the engine with this message: a bare move that cannot be read.
    Abort(String),
}

/// An action with its text taken as characters.
pub enum Reply {
    Say(Seq<char>),
    ShowBoard,
    Go(GoArgs),
    Quit,
    Abort(Seq<char>),
}

/// The reply an action stands for.
pub open spec fn reply_of(a: UciAction) -> Reply {
    match a {
        UciAction::Say(s) => Reply::Say(s@),
        UciAction::ShowBoard => Reply::ShowBoard,
        UciAction::Go(g) => Reply::Go(g),
        UciAction::Quit => Reply::Quit,
        UciAction::Abort(s) => Reply::Abort(s@),
    }
}

/// The replies a list of actions stands for.
pub open spec fn replies(v: Seq<UciAction>) -> Seq<Reply> {
    v.map_values(|a: UciAction| reply_of(a))
}

/// The answer to `uci`: the engine's name and author, its options, `uciok`.
pub open spec fn banner(c: SearchConfig) -> Seq<Reply> {
    seq![Reply::Say("id name torte"@), Reply::Say("id author Sean Leishman"@)] + option_text(c).map_values(
        |l: Seq<char>| Reply::Say(l),
    ) + seq![Reply::Say("uciok"@)]
}

/// The commands `uci_command` tells apart by their first word.
pub enum Command {
    Uci,
    IsReady,
    NewGame,
    Position,
    SetOption,
    Go,
    Show,
    Ignored,
    Quit,
    Other,
}

/// The command a first word names; `Other` for a word that names none.
pub open spec fn command_kind(w: Seq<char>) -> Command {
    if w == "uci"@ {
        Command::Uci
    } else if w == "isready"@ {
        Command::IsReady
    } else if w == "ucinewgame"@ {
        Command::NewGame
    } else if w == "position"@ {
        Command::Position
    } else if w == "setoption"@ {
        Command::SetOption
    } else if w == "go"@ {
        Command::Go
    } else if w == "d"@ || w == "board"@ {
        Command::Show
    } else if w == "stop"@ || w == "ponderhit"@ || w == "debug"@ || w == "register"@ {
        Command::Ignored
    } else if w == "quit"@ || w == "exit"@ {
        Command::Quit
    } else {
        Command::Other
    }
}

/// A line that is not a known command is read as a move to play: not four
/// or five bytes, or a fifth byte that is no promotion piece, stops the
/// engine; a move that reads and can be played is played; anything else is
/// reported.
pub open spec fn move_replies(b: Board, line: Seq<char>, bytes: Seq<u8>) -> Seq<Reply> {
    if bytes.len() != 4 && bytes.len() != 5 {
        seq![Reply::Abort("Invalid UCI move: "@ + line)]
    } else if bytes.len() == 5 && promotion_of_byte(bytes[4]) is None {
        seq![Reply::Abort("Invalid promotion piece in UCI move: "@ + line)]
    } else if plays(b, bytes) {
        seq![]
    } else {
        seq![Reply::Say("info string unknown command or illegal move: "@ + line)]
    }
}

/// Whether `bytes` read as a move that can be played on `b`.
pub open spec fn plays(b: Board, bytes: Seq<u8>) -> bool {
    &&& uci_move_ok(bytes)
    &&& b.checked_applicable(uci_move(bytes))
    &&& b.move_outcome(uci_move(bytes)) is Ok
}

/// A fresh `String` holding an ASCII literal.
fn text_of(t: &str) -> (r: String)
    requires
        t.is_ascii(),
    ensures
        r@ == t@,
{
    let mut s = String::new();
    push_str(&mut s, t);
    s
}

/// `prefix` followed by the characters of `tail`.
fn joined_text(prefix: &str, tail: &Vec<char>) -> (r: String)
    requires
        prefix.is_ascii(),
    ensures
        r@ == prefix@ + tail@,
{
    let mut s = String::new();
    push_str(&mut s, prefix);
    let ghost start = s@;
    let mut k: usize = 0;
    while k < tail.len()
        invariant
            k <= tail@.len(),
            s@ == start + tail@.subrange(0, k as int),
        decreases tail.len() - k,
    {
        s.push(tail[k]);
        proof {
            assert(tail@.subrange(0, k + 1) =~= tail@.subrange(0, k as int).push(tail@[k as int]));
        }
        k = k + 1;
    }
    proof {
        assert(tail@.subrange(0, tail@.len() as int) =~= tail@);
    }
    s
}

/// Appends the characters of `t` to `s`.
fn append(s: &mut String, t: &str)
    ensures
        final(s)@ == old(s)@ + t@,
{
    let cs = str_chars(t);
    let ghost start = s@;
    let mut k: usize = 0;
    while k < cs.len()
        invariant
            k <= cs@.len(),
            cs@ == t@,
            s@ == start + cs@.subrange(0, k as int),
        decreases cs.len() - k,
    {
        s.push(cs[k]);
        proof {
            assert(cs@.subrange(0, k + 1) =~= cs@.subrange(0, k as int).push(cs@[k as int]));
        }
        k = k + 1;
    }
    proof {
        assert(cs@.subrange(0, cs@.len() as int) =~= cs@);
    }
}

/// The text of a `bestmove` line.
pub open spec fn bestmove_text(best: Option<(Move, i32)>) -> Seq<char> {
    match best {
        Some((m, _)) => "bestmove "@ + uci_text(m),
        None => "bestmove 0000"@,
    }
}

/// The line that ends a search: the best move, or `0000` when there is none.
pub fn bestmove_line(best: Option<(Move, i32)>) -> (r: String)
    ensures
        r@ == bestmove_text(best),
{
    proof {
        reveal_strlit("bestmove ");
        reveal_strlit("bestmove 0000");
    }
    match best {
        Some((m, _)) => {
            let mut s = text_of("bestmove ");
            let u = m.to_uci();
            append(&mut s, u.as_str());
            s
        },
        None => text_of("bestmove 0000"),
    }
}

/// The text of an `info` line.
pub open spec fn info_text(depth: u32, score: i32, millis: u64, mv: Move) -> Seq<char> {
    "info depth "@ + decimal(depth as nat) + " score "@ + score_text(score as int) + " time "@ + decimal(
        millis as nat,
    ) + " pv "@ + uci_text(mv)
}

/// The line reporting a finished search to `depth`: its score, the time it
/// took in milliseconds and its best move.
pub fn info_line(depth: u32, score: i32, millis: u64, mv: Move) -> (r: String)
    requires
        score != i32::MIN,
    ensures
        r@ == info_text(depth, score, millis, mv),
{
    proof {
        reveal_strlit("info depth ");
        reveal_strlit(" score ");
        reveal_strlit(" time ");
        reveal_strlit(" pv ");
    }
    let mut s = text_of("info depth ");
    push_decimal(&mut s, depth as u64);
    push_str(&mut s, " score ");
    let f = format_score(score);
    append(&mut s, f.as_str());
    push_str(&mut s, " time ");
    push_decimal(&mut s, millis);
    push_str(&mut s, " pv ");
    let u = mv.to_uci();
    append(&mut s, u.as_str());
    s
}

/// `Duration::from_millis`: a span of `ms` milliseconds; nothing is claimed
/// of the value.
#[verifier::external_body]
fn duration_ms(ms: u64) -> (r: Duration) {
    Duration::from_millis(ms)
}

/// `Instant::checked_add`: the instant `d` after `start`, or `None` where the
/// clock cannot hold it; nothing is claimed of which.
#[verifier::external_body]
fn instant_after(start: &Instant, d: Duration) -> (r: Option<Instant>) {
    start.checked_add(d)
}

/// What a `go` came to.
pub enum GoOutcome {
    /// The search ran: its best move and score, if there is a legal move.
    Best(Option<(Move, i32)>),
    /// The position or the depth is outside what the search takes.
    OutOfRange,
}

/// Runs a `go`: iterative deepening to `args.max_depth` when the
/// configuration asks for it, else one search to that depth, stopping at
/// `args.time_budget_ms` from now when there is a budget. `on_iteration`
/// hears of each finished iteration (of the one search otherwise): depth,
/// best move, score and time taken.
pub fn go<F>(
    board: &Board,
    args: GoArgs,
    config: SearchConfig,
    tt: &mut TranspositionTable,
    on_iteration: &mut F,
) -> (r: GoOutcome)
    where
        F: FnMut(u32, Move, i32, Duration),
    requires
        old(tt).wf(),
        forall|g: F, d: u32, m: Move, s: i32, t: Duration| #[trigger] call_requires(g, (d, m, s, t)),
    ensures
        final(tt).wf(),
        r is OutOfRange <==> !search_ok(*board, args.max_depth as int),
        r matches GoOutcome::Best(b) ==> {
            &&& b matches Some((m, s)) ==> legal(*board, m) && in_range(s as int)
            &&& no_moves(*board) ==> b is None
            &&& args.time_budget_ms is None && args.max_depth >= 1 && !no_moves(*board) ==> b is Some
        },
{
    if !search_ready(board, args.max_depth) {
        return GoOutcome::OutOfRange;
    }
    let start = clock_now();
    let deadline = match args.time_budget_ms {
        Some(ms) => instant_after(&start, duration_ms(ms)),
        None => None,
    };
    let abort = AbortSignal::with_deadline(deadline);
    if config.iterative_deepening {
        GoOutcome::Best(iterative_deepening_with_abort(board, args.max_depth, config, abort, tt, on_iteration))
    } else {
        let mut killers = new_killers();
        let mut history = new_history();
        proof {
            reveal(history_ok);
        }
        let found = find_best_move_with_tt(board, args.max_depth, config, tt, &mut killers, &mut history, &abort);
        if let Some((mv, score)) = found {
            let el = elapsed_since(&start);
            on_iteration(args.max_depth, mv, score, el);
        }
        GoOutcome::Best(found)
    }
}

/// Answers one UCI line. The first word names the command and the other words
/// are its arguments; the board, the configuration and the table change as
/// the command says, and the actions returned are what the caller is to do.
#[verifier::rlimit(60)]
pub fn uci_command(
    board: &mut Board,
    config: &mut SearchConfig,
    tt: &mut TranspositionTable,
    line: &str,
) -> (r: Vec<UciAction>)
    requires
        old(tt).wf(),
    ensures
        final(tt).wf(),
        words(line@).len() == 0 ==> replies(r@) == Seq::<Reply>::empty() && *final(board) == *old(board)
            && *final(config) == *old(config) && *final(tt) == *old(tt),
        words(line@).len() > 0 ==> ({
            let rest = words(line@).drop_first();
            let same_board = *final(board) == *old(board);
            let same_config = *final(config) == *old(config);
            let same_tt = *final(tt) == *old(tt);
            match command_kind(words(line@)[0]) {
                Command::Uci => replies(r@) == banner(*old(config)) && same_board && same_config && same_tt,
                Command::IsReady => replies(r@) == seq![Reply::Say("readyok"@)] && same_board && same_config
                    && same_tt,
                Command::NewGame => {
                    &&& replies(r@) == Seq::<Reply>::empty()
                    &&& fen_ok(STARTPOS@) ==> *final(board) == read_board(STARTPOS@)
                    &&& !fen_ok(STARTPOS@) ==> same_board
                    &&& same_config
                    &&& final(tt).slots().len() == old(tt).slots().len()
                    &&& forall|i: int| 0 <= i < final(tt).slots().len() ==> #[trigger] final(tt).slots()[i] is None
                },
                Command::Position => same_config && same_tt && match position_of(rest) {
                    Some(b) => *final(board) == b && replies(r@) == Seq::<Reply>::empty(),
                    None => same_board && replies(r@) == seq![Reply::Say("info string failed to parse position"@)],
                },
                Command::SetOption => {
                    &&& same_board
                    &&& setoption_state(options_in(rest), *old(config), *final(config), *old(tt), *final(tt))
                    &&& replies(r@) == match options_in(rest) {
                        Some((n, _)) => if !bool_option(n) && n != "Hash"@ {
                            seq![Reply::Say("info string unknown option: "@ + n)]
                        } else {
                            Seq::<Reply>::empty()
                        },
                        None => Seq::<Reply>::empty(),
                    }
                },
                Command::Go => replies(r@) == seq![Reply::Go(go_args(rest, old(board).side_to_move))] && same_board
                    && same_config && same_tt,
                Command::Show => replies(r@) == seq![Reply::ShowBoard] && same_board && same_config && same_tt,
                Command::Ignored => replies(r@) == Seq::<Reply>::empty() && same_board && same_config && same_tt,
                Command::Quit => replies(r@) == seq![Reply::Quit] && same_board && same_config && same_tt,
                Command::Other => {
                    &&& replies(r@) == move_replies(*old(board), line@, line.spec_bytes())
                    &&& plays(*old(board), line.spec_bytes()) ==> old(board).played(
                        uci_move(line.spec_bytes()),
                        *final(board),
                    )
                    &&& !(uci_move_ok(line.spec_bytes()) && old(board).checked_applicable(
                        uci_move(line.spec_bytes()),
                    )) ==> same_board
                    &&& same_config
                    &&& same_tt
                },
            }
        }),
{
    let cs = str_chars(line);
    let mut ws = split_words(&cs);
    let ghost all = words(line@);
    proof {
        assert(ws@.map_values(|w: Vec<char>| w@) =~= all);
    }
    let mut out: Vec<UciAction> = Vec::new();
    if ws.len() == 0 {
        proof {
            assert(replies(out@) =~= Seq::<Reply>::empty());
        }
        return out;
    }
    let cmd = ws.remove(0);
    proof {
        assert(cmd@ == all[0]);
        assert(ws@.map_values(|w: Vec<char>| w@) =~= all.drop_first());
    }
    let ghost rest = all.drop_first();
    if word_is(&cmd, "uci") {
        out = banner_actions(config);
    } else if word_is(&cmd, "isready") {
        proof {
            reveal_strlit("readyok");
        }
        out.push(UciAction::Say(text_of("readyok")));
        proof {
            assert(replies(out@) =~= seq![Reply::Say("readyok"@)]);
        }
    } else if word_is(&cmd, "ucinewgame") {
        if fen_valid(STARTPOS) {
            *board = Board::parse(STARTPOS);
            proof {
                lemma_read_board(STARTPOS@, *board);
            }
        }
        tt.clear();
        proof {
            assert(replies(out@) =~= Seq::<Reply>::empty());
        }
    } else if word_is(&cmd, "position") {
        match position_from_words(&ws) {
            Some(b) => {
                *board = b;
                proof {
                    assert(replies(out@) =~= Seq::<Reply>::empty());
                }
            },
            None => {
                proof {
                    reveal_strlit("info string failed to parse position");
                }
                out.push(UciAction::Say(text_of("info string failed to parse position")));
                proof {
                    assert(replies(out@) =~= seq![Reply::Say("info string failed to parse position"@)]);
                }
            },
        }
    } else if word_is(&cmd, "setoption") {
        let name = setoption_words(&ws, config, tt);
        proof {
            assert(setoption_state(options_in(rest), *old(config), *config, *old(tt), *tt));
        }
        match name {
            Some(n) => {
                proof {
                    reveal_strlit("info string unknown option: ");
                }
                let nc = str_chars(n.as_str());
                out.push(UciAction::Say(joined_text("info string unknown option: ", &nc)));
            },
            None => {},
        }
        proof {
            match options_in(rest) {
                Some((n, _)) => {
                    if !bool_option(n) && n != "Hash"@ {
                        assert(replies(out@) =~= seq![Reply::Say("info string unknown option: "@ + n)]);
                    } else {
                        assert(replies(out@) =~= Seq::<Reply>::empty());
                    }
                },
                None => {
                    assert(replies(out@) =~= Seq::<Reply>::empty());
                },
            }
        }
    } else if word_is(&cmd, "go") {
        out.push(UciAction::Go(go_from_words(&ws, board.side_to_move)));
        proof {
            assert(replies(out@) =~= seq![Reply::Go(go_args(rest, old(board).side_to_move))]);
        }
    } else if word_is(&cmd, "d") || word_is(&cmd, "board") {
        out.push(UciAction::ShowBoard);
        proof {
            assert(replies(out@) =~= seq![Reply::ShowBoard]);
        }
    } else if word_is(&cmd, "stop") || word_is(&cmd, "ponderhit") || word_is(&cmd, "debug") || word_is(
        &cmd,
        "register",
    ) {
        proof {
            assert(replies(out@) =~= Seq::<Reply>::empty());
        }
    } else if word_is(&cmd, "quit") || word_is(&cmd, "exit") {
        out.push(UciAction::Quit);
        proof {
            assert(replies(out@) =~= seq![Reply::Quit]);
        }
    } else {
        play_line(board, line, &cs, &mut out);
    }
    out
}

/// The answer to `uci`.
fn banner_actions(config: &SearchConfig) -> (r: Vec<UciAction>)
    ensures
        replies(r@) == banner(*config),
{
    let mut out: Vec<UciAction> = Vec::new();
    proof {
        reveal_strlit("id name torte");
        reveal_strlit("id author Sean Leishman");
        reveal_strlit("uciok");
    }
    out.push(UciAction::Say(text_of("id name torte")));
    out.push(UciAction::Say(text_of("id author Sean Leishman")));
    let lines = option_lines(config);
    let ghost head = seq![Reply::Say("id name torte"@), Reply::Say("id author Sean Leishman"@)];
    let ghost opts = option_text(*config);
    let mut i: usize = 0;
    while i < lines.len()
        invariant
            i <= lines@.len(),
            lines@.map_values(|l: String| l@) == opts,
            replies(out@) == head + opts.take(i as int).map_values(|l: Seq<char>| Reply::Say(l)),
        decreases lines.len() - i,
    {
        let l = lines[i].clone();
        let ghost before = out@;
        out.push(UciAction::Say(l));
        proof {
            assert(replies(out@) =~= replies(before).push(Reply::Say(lines@[i as int]@)));
            assert(opts[i as int] == lines@[i as int]@);
            assert(opts.take(i + 1).map_values(|l: Seq<char>| Reply::Say(l)) =~= opts.take(
                i as int,
            ).map_values(|l: Seq<char>| Reply::Say(l)).push(Reply::Say(opts[i as int])));
            assert(replies(out@) =~= head + opts.take(i + 1).map_values(|l: Seq<char>| Reply::Say(l)));
        }
        i = i + 1;
    }
    out.push(UciAction::Say(text_of("uciok")));
    proof {
        assert(opts.take(opts.len() as int) =~= opts);
        assert(replies(out@) =~= banner(*config));
    }
    out
}

/// A line that is no known command, read as a move to play.
fn play_line(board: &mut Board, line: &str, cs: &Vec<char>, out: &mut Vec<UciAction>)
    requires
        cs@ == line@,
        old(out)@.len() == 0,
    ensures
        replies(final(out)@) == move_replies(*old(board), line@, line.spec_bytes()),
        plays(*old(board), line.spec_bytes()) ==> old(board).played(uci_move(line.spec_bytes()), *final(board)),
        !(uci_move_ok(line.spec_bytes()) && old(board).checked_applicable(uci_move(line.spec_bytes())))
            ==> *final(board) == *old(board),
{
    let bytes = line.as_bytes();
    proof {
        reveal_strlit("Invalid UCI move: ");
        reveal_strlit("Invalid promotion piece in UCI move: ");
        reveal_strlit("info string unknown command or illegal move: ");
    }
    if bytes.len() != 4 && bytes.len() != 5 {
        out.push(UciAction::Abort(joined_text("Invalid UCI move: ", cs)));
        proof {
            assert(replies(out@) =~= move_replies(*old(board), line@, line.spec_bytes()));
        }
        return;
    }
    if bytes.len() == 5 && !(bytes[4] == 110 || bytes[4] == 98 || bytes[4] == 114 || bytes[4] == 113) {
        out.push(UciAction::Abort(joined_text("Invalid promotion piece in UCI move: ", cs)));
        proof {
            assert(replies(out@) =~= move_replies(*old(board), line@, line.spec_bytes()));
        }
        return;
    }
    let mut played = false;
    if Move::uci_well_formed(line) {
        let m = Move::from_uci(line);
        if board.can_apply(m) {
            match board.apply_uci_move(line) {
                Ok(()) => {
                    played = true;
                },
                Err(_) => {},
            }
        }
    }
    if !played {
        out.push(UciAction::Say(joined_text("info string unknown command or illegal move: ", cs)));
    }
    proof {
        assert(replies(out@) =~= move_replies(*old(board), line@, line.spec_bytes()));
    }
}

} // verus!
