use chess_overlay::engine::{
    go_command_text, option_command_text, position_command_text, EngineError, EngineSession,
    Outcome, Phase, Reply,
};

fn texts(items: &[&str]) -> Vec<String> {
    items.iter().map(|s| s.to_string()).collect()
}

fn ready_session() -> EngineSession {
    let mut session = EngineSession::new();
    assert_eq!(session.phase(), Phase::Uninitialized);
    let reply = session.start();
    assert_eq!(reply, Reply { commands: texts(&["uci"]), outcome: Outcome::Pending });
    assert_eq!(session.phase(), Phase::AwaitingUciOk);
    let reply = session.on_line("id name Stockfish 16\n");
    assert_eq!(reply, Reply { commands: vec![], outcome: Outcome::Pending });
    let reply = session.on_line("uciok\n");
    assert_eq!(reply, Reply { commands: texts(&["isready"]), outcome: Outcome::Pending });
    assert_eq!(session.phase(), Phase::AwaitingReadyOk);
    let reply = session.on_line("  readyok \r\n");
    assert_eq!(reply, Reply { commands: vec![], outcome: Outcome::Ready });
    assert_eq!(session.phase(), Phase::Ready);
    session
}

fn searching_session(lines: u32) -> EngineSession {
    let mut session = ready_session();
    let fen = "8/8/8/8/8/8/8/8 w - - 0 1";
    let reply = session.analyze(fen, 12, lines);
    assert_eq!(reply, Reply { commands: texts(&["isready"]), outcome: Outcome::Pending });
    assert_eq!(session.phase(), Phase::Syncing);
    let reply = session.on_line("readyok\n");
    let count = lines.to_string();
    let option = format!("setoption name MultiPV value {}", count);
    assert_eq!(
        reply,
        Reply {
            commands: texts(&[
                option.as_str(),
                "position fen 8/8/8/8/8/8/8/8 w - - 0 1",
                "go depth 12"
            ]),
            outcome: Outcome::Pending
        }
    );
    assert_eq!(session.phase(), Phase::Searching);
    session
}

#[test]
fn handshake_reaches_ready() {
    let session = ready_session();
    assert_eq!(session.phase(), Phase::Ready);
}

#[test]
fn ranked_moves_follow_the_pv_index() {
    let mut session = searching_session(3);
    let reply = session
        .on_line("info depth 10 seldepth 12 multipv 2 score cp 20 nodes 100 pv d2d4 d7d5\n");
    assert_eq!(reply, Reply { commands: vec![], outcome: Outcome::Pending });
    let reply = session
        .on_line("info depth 12 seldepth 15 multipv 1 score cp 35 nodes 900 pv e2e4 e7e5\n");
    assert_eq!(reply, Reply { commands: vec![], outcome: Outcome::Pending });
    let reply = session.on_line("bestmove e2e4\n");
    assert_eq!(
        reply,
        Reply { commands: vec![], outcome: Outcome::Moves(texts(&["e2e4", "d2d4"])) }
    );
    assert_eq!(session.phase(), Phase::Ready);
}

#[test]
fn later_report_replaces_earlier_one_for_the_same_index() {
    let mut session = searching_session(3);
    session.on_line("info depth 8 multipv 1 score cp 10 pv g1f3 g8f6");
    session.on_line("info depth 8 multipv 2 score cp 5 pv c2c4 e7e5");
    session.on_line("info depth 9 multipv 1 score cp 30 pv e2e4 e7e5");
    session.on_line("info depth 9 multipv 3 score cp 1 pv b1c3");
    let reply = session.on_line("bestmove e2e4 ponder e7e5");
    assert_eq!(reply.outcome, Outcome::Moves(texts(&["e2e4", "c2c4", "b1c3"])));
}

#[test]
fn answer_is_cut_to_the_lines_asked_for() {
    let mut session = searching_session(2);
    session.on_line("info depth 9 multipv 3 score cp 1 pv b1c3");
    session.on_line("info depth 9 multipv 1 score cp 30 pv e2e4 e7e5");
    session.on_line("info depth 9 multipv 2 score cp 5 pv c2c4 e7e5");
    let reply = session.on_line("bestmove e2e4");
    assert_eq!(reply.outcome, Outcome::Moves(texts(&["e2e4", "c2c4"])));
}

#[test]
fn bestmove_without_pv_is_the_only_move() {
    let mut session = searching_session(3);
    let reply = session.on_line("bestmove g1f3\n");
    assert_eq!(
        reply,
        Reply { commands: vec![], outcome: Outcome::Moves(texts(&["g1f3"])) }
    );
    assert_eq!(session.phase(), Phase::Ready);
}

#[test]
fn bestmove_without_a_move_gives_nothing() {
    let mut session = searching_session(3);
    let reply = session.on_line("bestmove");
    assert_eq!(reply.outcome, Outcome::Moves(vec![]));
}

#[test]
fn only_well_formed_pv_reports_are_recorded() {
    let mut session = searching_session(3);
    session.on_line("info depth 9 currmove e2e4 currmovenumber 1");
    session.on_line("info string multipv 7 pv a2a3");
    session.on_line("multipv 1 pv h2h4 info");
    session.on_line("info depth 9 multipv x pv a2a4");
    session.on_line("info depth 9 multipv 4294967296 pv a2a4");
    session.on_line("info depth 9 multipv +2 score cp 0 pv b2b4");
    let reply = session.on_line("bestmove e2e4");
    assert_eq!(reply.outcome, Outcome::Moves(texts(&["b2b4", "a2a3"])));
}

#[test]
fn timeout_returns_what_was_reported() {
    let mut session = searching_session(3);
    session.on_line("info depth 10 multipv 2 score cp 20 pv d2d4 d7d5");
    session.on_line("info depth 10 multipv 1 score cp 25 pv e2e4");
    let reply = session.on_timeout();
    assert_eq!(
        reply,
        Reply { commands: texts(&["stop"]), outcome: Outcome::Moves(texts(&["e2e4", "d2d4"])) }
    );
    assert_eq!(session.phase(), Phase::Ready);
}

#[test]
fn timeout_without_reports_returns_no_moves() {
    let mut session = searching_session(3);
    let reply = session.on_timeout();
    assert_eq!(reply, Reply { commands: texts(&["stop"]), outcome: Outcome::Moves(vec![]) });
    let mut session = ready_session();
    session.analyze("8/8/8/8/8/8/8/8 w - - 0 1", 5, 1);
    let reply = session.on_timeout();
    assert_eq!(reply, Reply { commands: texts(&["stop"]), outcome: Outcome::Moves(vec![]) });
    assert_eq!(session.phase(), Phase::Ready);
}

#[test]
fn old_reports_do_not_leak_into_the_next_analysis() {
    let mut session = searching_session(3);
    session.on_line("info depth 10 multipv 1 score cp 25 pv e2e4");
    session.on_timeout();
    session.analyze("8/8/8/8/8/8/8/8 b - - 0 1", 5, 3);
    session.on_line("readyok");
    let reply = session.on_line("bestmove e7e5");
    assert_eq!(reply.outcome, Outcome::Moves(texts(&["e7e5"])));
}

#[test]
fn handshake_fails_on_timeout_or_closed_stream() {
    let mut session = EngineSession::new();
    session.start();
    let reply = session.on_timeout();
    assert_eq!(
        reply,
        Reply { commands: vec![], outcome: Outcome::Failed(EngineError::HandshakeFailed) }
    );
    assert_eq!(session.phase(), Phase::Faulted);

    let mut session = EngineSession::new();
    session.start();
    session.on_line("uciok");
    let reply = session.on_closed();
    assert_eq!(reply.outcome, Outcome::Failed(EngineError::HandshakeFailed));
    assert_eq!(session.phase(), Phase::Faulted);
}

#[test]
fn closed_stream_faults_and_restart_recovers() {
    let mut session = searching_session(3);
    let reply = session.on_closed();
    assert_eq!(
        reply,
        Reply { commands: vec![], outcome: Outcome::Failed(EngineError::StreamClosed) }
    );
    assert_eq!(session.phase(), Phase::Faulted);

    let reply = session.analyze("8/8/8/8/8/8/8/8 w - - 0 1", 5, 3);
    assert_eq!(reply.outcome, Outcome::Failed(EngineError::NotReady));
    assert_eq!(session.on_line("readyok").outcome, Outcome::Pending);
    assert_eq!(session.on_timeout().outcome, Outcome::Pending);
    assert_eq!(session.phase(), Phase::Faulted);

    let reply = session.restart();
    assert_eq!(reply, Reply { commands: texts(&["uci"]), outcome: Outcome::Pending });
    assert_eq!(session.phase(), Phase::AwaitingUciOk);
    session.on_line("uciok");
    assert_eq!(session.on_line("readyok").outcome, Outcome::Ready);
    assert_eq!(session.phase(), Phase::Ready);
}

#[test]
fn failed_restart_is_reported_as_such() {
    let mut session = searching_session(3);
    session.on_closed();
    session.restart();
    let reply = session.on_closed();
    assert_eq!(reply.outcome, Outcome::Failed(EngineError::RestartFailed));
    assert_eq!(session.phase(), Phase::Faulted);

    session.restart();
    session.on_line("uciok");
    let reply = session.on_timeout();
    assert_eq!(reply.outcome, Outcome::Failed(EngineError::RestartFailed));
}

#[test]
fn analyze_is_refused_unless_ready() {
    let mut session = EngineSession::new();
    let reply = session.analyze("8/8/8/8/8/8/8/8 w - - 0 1", 5, 3);
    assert_eq!(
        reply,
        Reply { commands: vec![], outcome: Outcome::Failed(EngineError::NotReady) }
    );
    assert_eq!(session.phase(), Phase::Uninitialized);
    let mut session = searching_session(3);
    let reply = session.analyze("8/8/8/8/8/8/8/8 w - - 0 1", 5, 3);
    assert_eq!(reply.outcome, Outcome::Failed(EngineError::NotReady));
    assert_eq!(session.phase(), Phase::Searching);
}

#[test]
fn set_option_gives_the_command_when_ready() {
    let session = ready_session();
    let reply = session.set_option("Threads", "8");
    assert_eq!(
        reply,
        Reply {
            commands: texts(&["setoption name Threads value 8"]),
            outcome: Outcome::Pending
        }
    );
    let session = EngineSession::new();
    let reply = session.set_option("Hash", "256");
    assert_eq!(reply.outcome, Outcome::Failed(EngineError::NotReady));
    assert!(reply.commands.is_empty());
}

#[test]
fn stop_drops_the_analysis_and_syncs() {
    let mut session = searching_session(3);
    session.on_line("info depth 10 multipv 1 score cp 25 pv e2e4");
    let reply = session.stop();
    assert_eq!(reply, Reply { commands: texts(&["stop", "isready"]), outcome: Outcome::Pending });
    assert_eq!(session.phase(), Phase::AwaitingReadyOk);
    assert_eq!(session.on_line("bestmove e2e4").outcome, Outcome::Pending);
    assert_eq!(session.on_line("readyok").outcome, Outcome::Ready);
    assert_eq!(session.phase(), Phase::Ready);
    let mut session = EngineSession::new();
    assert_eq!(session.stop().outcome, Outcome::Failed(EngineError::NotReady));
}

#[test]
fn quit_sends_quit() {
    let session = searching_session(3);
    let reply = session.quit();
    assert_eq!(reply, Reply { commands: texts(&["quit"]), outcome: Outcome::Pending });
    let reply = EngineSession::new().quit();
    assert_eq!(reply, Reply { commands: texts(&["quit"]), outcome: Outcome::Pending });
}

#[test]
fn start_is_refused_on_a_session_that_was_started() {
    let refused = Reply { commands: vec![], outcome: Outcome::Failed(EngineError::NotReady) };
    let mut session = EngineSession::new();
    session.start();
    assert_eq!(session.start(), refused);
    assert_eq!(session.phase(), Phase::AwaitingUciOk);

    let mut session = ready_session();
    assert_eq!(session.start(), refused);
    assert_eq!(session.phase(), Phase::Ready);

    let mut session = searching_session(3);
    session.on_line("info depth 10 multipv 1 score cp 25 pv e2e4");
    assert_eq!(session.start(), refused);
    assert_eq!(session.phase(), Phase::Searching);
    assert_eq!(session.on_line("bestmove e2e4").outcome, Outcome::Moves(texts(&["e2e4"])));

    let mut session = searching_session(3);
    session.on_closed();
    assert_eq!(session.start(), refused);
    assert_eq!(session.phase(), Phase::Faulted);
    assert_eq!(session.restart().commands, texts(&["uci"]));
    assert_eq!(session.phase(), Phase::AwaitingUciOk);
}

#[test]
fn restart_begins_the_handshake_from_any_phase() {
    let mut session = EngineSession::new();
    assert_eq!(session.restart(), Reply { commands: texts(&["uci"]), outcome: Outcome::Pending });
    assert_eq!(session.phase(), Phase::AwaitingUciOk);
    let mut session = searching_session(3);
    session.on_line("info depth 10 multipv 1 score cp 25 pv e2e4");
    assert_eq!(session.restart().commands, texts(&["uci"]));
    session.on_line("uciok");
    session.on_line("readyok");
    session.analyze("8/8/8/8/8/8/8/8 w - - 0 1", 5, 3);
    session.on_line("readyok");
    assert_eq!(session.on_line("bestmove a2a3").outcome, Outcome::Moves(texts(&["a2a3"])));
}

#[test]
fn many_indices_come_out_in_ascending_order() {
    let mut session = searching_session(500);
    let mut expected = Vec::new();
    for i in (1..=300u32).rev() {
        let index = (i * 7919) % 1009 + 1;
        session.on_line(&format!("info depth 3 multipv {} score cp 0 pv m{}", index, index));
    }
    let mut indices: Vec<u32> = (1..=300u32).map(|i| (i * 7919) % 1009 + 1).collect();
    indices.sort();
    indices.dedup();
    for index in indices {
        expected.push(format!("m{}", index));
    }
    session.on_line("info depth 3 multipv 0 score cp 0 pv first");
    session.on_line("info depth 3 multipv 4294967295 score cp 0 pv last");
    expected.insert(0, "first".to_string());
    expected.push("last".to_string());
    assert_eq!(session.on_line("bestmove x").outcome, Outcome::Moves(expected));
}

#[test]
fn command_texts() {
    assert_eq!(option_command_text("MultiPV", "3"), "setoption name MultiPV value 3");
    assert_eq!(position_command_text("8/8/8/8/8/8/8/8 w - - 0 1"), "position fen 8/8/8/8/8/8/8/8 w - - 0 1");
    assert_eq!(go_command_text(0), "go depth 0");
    assert_eq!(go_command_text(15), "go depth 15");
    assert_eq!(go_command_text(4294967295), "go depth 4294967295");
}
