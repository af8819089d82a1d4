use gat::geometry::CellSize;
use gat::term::{
    chunk_wait, hear,
    cell_answered, cell_size_of, current_cells, explain, grace, graphics_answered, over_ssh,
    protocol_from_env, protocol_of, reply_budget, reply_ceiling, rung_text, rungs, said,
    status_answered, try_place, version_answered, window_size, Detection, Env, Measured, Protocol,
    Question, Report, Terminal, Var, LOCAL_CEILING, REMOTE_CEILING,
};

fn unset() -> Var {
    Var { set: false, text: None }
}

fn set(t: &str) -> Var {
    Var { set: true, text: Some(t.into()) }
}

fn env() -> Env {
    Env {
        term: set("xterm-256color"),
        program: unset(),
        kitty_window: unset(),
        ghostty_resources: unset(),
        ghostty_bin: unset(),
        wezterm: unset(),
        ssh_tty: unset(),
        ssh_connection: unset(),
    }
}

fn report(cols: u16, rows: u16, wide: u16, tall: u16) -> Option<Report> {
    Some(Report { cols, rows, wide, tall })
}

#[test]
fn local_terminals_keep_the_budget_they_always_had() {
    // a sub-millisecond round trip must not scale the
    // budget below the local ceiling
    let rtt = 200;
    assert_eq!(reply_budget(rtt, LOCAL_CEILING), LOCAL_CEILING);
    assert_eq!(reply_budget(rtt, REMOTE_CEILING), LOCAL_CEILING);
}

#[test]
fn a_slow_link_stretches_the_budget_but_not_past_the_ceiling() {
    // 90ms round trip: 4 * 90ms, under the remote ceiling
    let atlantic = reply_budget(90_000, REMOTE_CEILING);
    assert_eq!(atlantic, 360_000);

    // 800ms round trip: 4 * 800ms clamps to the ceiling
    let awful = reply_budget(800_000, REMOTE_CEILING);
    assert_eq!(awful, REMOTE_CEILING);
}

#[test]
fn the_ceiling_only_lifts_for_a_link_worth_waiting_on() {
    // reply_ceiling only ever widens the wait, and only
    // over ssh
    assert!(REMOTE_CEILING > LOCAL_CEILING);
    assert_eq!(reply_ceiling(&env()), LOCAL_CEILING);
    let far = Env { ssh_tty: set("/dev/pts/1"), ..env() };
    assert!(over_ssh(&far));
    assert_eq!(reply_ceiling(&far), REMOTE_CEILING);
}

#[test]
fn a_drain_grows_with_the_link_within_bounds() {
    assert_eq!(grace(60_000, 1), 60_000);
    assert_eq!(grace(60_000, 100_000), 100_000);
    assert_eq!(grace(60_000, 900_000), 250_000);

    // a window that was widened stays so
    assert_eq!(grace(200_000, 100_000), 200_000);
}

#[test]
fn the_environment_names_the_terminal_or_says_nothing() {
    assert_eq!(protocol_from_env(&env()), None);
    let kitty = Some(Protocol::Kitty);
    assert_eq!(protocol_from_env(&Env { term: set("xterm-kitty"), ..env() }), kitty);
    assert_eq!(protocol_from_env(&Env { term: set("xterm-ghostty"), ..env() }), kitty);
    assert_eq!(protocol_from_env(&Env { program: set("WezTerm"), ..env() }), kitty);
    assert_eq!(protocol_from_env(&Env { program: set("wezterm"), ..env() }), None);
    assert_eq!(protocol_from_env(&Env { wezterm: set("/usr/bin/wezterm"), ..env() }), kitty);
    let raw = Var { set: true, text: None };
    assert_eq!(protocol_from_env(&Env { kitty_window: raw, ..env() }), kitty);
}

#[test]
fn a_window_without_a_size_is_guessed() {
    assert_eq!(current_cells(None), (80, 24));
    assert_eq!(current_cells(report(0, 40, 0, 0)), (80, 24));
    assert_eq!(current_cells(report(120, 40, 0, 0)), (120, 40));
}

#[test]
fn a_cell_that_cannot_be_is_not_believed() {
    assert_eq!(window_size(report(100, 50, 1000, 1000)).2, Some(CellSize { w: 10, h: 20 }));
    assert_eq!(window_size(report(100, 50, 199, 1000)).2, None);
    assert_eq!(window_size(report(100, 50, 1000, 199)).2, None);
    assert_eq!(window_size(report(100, 50, 200, 200)).2, Some(CellSize { w: 2, h: 4 }));
}

#[test]
fn a_cell_size_is_told_height_first() {
    assert_eq!(cell_size_of(b"\x1b[6;18;9t"), Some(CellSize { w: 9, h: 18 }));
    assert_eq!(cell_size_of(b"junk\x1b[6; 18 ;9;1t"), Some(CellSize { w: 9, h: 18 }));
    assert_eq!(cell_size_of(b"\x1b[6;18;9"), None);
    assert_eq!(cell_size_of(b"\x1b[6;18t"), None);
    assert_eq!(cell_size_of(b"\x1b[6;0;9t"), None);
    assert_eq!(cell_size_of(b"\x1b[6;x;9t"), None);
    assert_eq!(cell_size_of(b"\x1b[6;18;9\xff;t"), None);
    assert!(cell_answered(b"\x1b[6;18;9t"));
    assert!(!cell_answered(b"\x1b[6;18;9"));
}

#[test]
fn replies_are_told_whole_from_half() {
    assert!(status_answered(b"x\x1b[0n"));
    assert!(!status_answered(b"\x1b[0"));
    assert!(version_answered(b"\x1bP>|kitty(0.30)\x1b\\\x1b[0n"));
    assert!(!version_answered(b"\x1bP>|kitty(0.30)\x1b\\"));
    assert!(graphics_answered(b"\x1b_Gi=1;OK\x1b\\"));
    assert!(!graphics_answered(b"\x1b_Gi=1;OK"));
}

#[test]
fn a_version_names_its_terminal_anywhere_in_it() {
    assert_eq!(protocol_of(b"\x1bP>|libghostty 1.1\x1b\\"), Protocol::Kitty);
    assert_eq!(protocol_of(b"\x1bP>|Konsole 23\x1b\\"), Protocol::Kitty);
    assert_eq!(protocol_of(b"\x1bP>|XTerm(390)\x1b\\"), Protocol::Unknown);
    assert_eq!(protocol_of(b""), Protocol::Unknown);
}

#[test]
fn a_terminal_that_is_known_is_asked_nothing() {
    let e = Env { term: set("xterm-kitty"), ..env() };
    let d = Detection::start(report(100, 50, 1000, 1000), &e);
    assert_eq!(d.next(), None);
    assert_eq!(d.measured, Some(Measured::NotNeeded));
    assert_eq!(
        d.terminal(),
        Terminal {
            cols: 100,
            rows: 50,
            cell: CellSize { w: 10, h: 20 },
            protocol: Protocol::Kitty,
        }
    );
}

#[test]
fn a_terminal_that_answers_is_asked_for_what_is_missing() {
    let mut d = Detection::start(report(100, 50, 0, 0), &env());
    assert_eq!(d.next(), Some(Question::Status(LOCAL_CEILING)));
    d.measured(Measured::Link(Some(1000)));
    assert_eq!(d.next(), Some(Question::Cell(LOCAL_CEILING)));
    d.cell_reply(b"\x1b[6;18;9t");
    assert_eq!(d.next(), Some(Question::Version(LOCAL_CEILING)));
    d.version_reply(b"\x1bP>|WezTerm 2024\x1b\\\x1b[0n");
    assert_eq!(d.next(), None);
    assert_eq!(
        d.terminal(),
        Terminal {
            cols: 100,
            rows: 50,
            cell: CellSize { w: 9, h: 18 },
            protocol: Protocol::Kitty,
        }
    );
}

#[test]
fn a_terminal_that_is_silent_is_asked_no_more() {
    for m in [Measured::NoTty, Measured::Link(None)] {
        let mut d = Detection::start(None, &env());
        d.measured(m);
        assert_eq!(d.next(), None);
        let t = d.terminal();
        assert_eq!((t.cols, t.rows), (80, 24));
        assert_eq!(t.cell, CellSize { w: 9, h: 18 });
        assert_eq!(t.protocol, Protocol::Unknown);
    }
}

#[test]
fn a_probe_accounts_for_everything_it_saw() {
    let e = Env { ssh_tty: set("/dev/pts/3"), ..env() };
    let t = Terminal {
        cols: 100,
        rows: 50,
        cell: CellSize { w: 9, h: 18 },
        protocol: Protocol::Unknown,
    };
    let got = explain(&e, report(100, 50, 0, 0), &Measured::Link(Some(90_500)), &t);
    let want = "  TERM                   xterm-256color\n\
                \x20 TERM_PROGRAM           <unset>\n\
                \x20 KITTY_WINDOW_ID        <unset>\n\
                \x20 GHOSTTY_RESOURCES_DIR  <unset>\n\
                \x20 GHOSTTY_BIN_DIR        <unset>\n\
                \x20 WEZTERM_EXECUTABLE     <unset>\n\
                \x20 SSH_TTY                /dev/pts/3\n\
                \x20 SSH_CONNECTION         <unset>\n\
                \x20 ioctl cells            100x50\n\
                \x20 ioctl cell pixels      <not reported>\n\
                \x20 protocol from env      <undecided, will query>\n\
                \x20 link round trip        90ms (replies given 362ms)\n\
                \x20 cell size used         9x18\n\
                \x20 protocol               None\n";
    assert_eq!(got, want);
    let silent = explain(&e, None, &Measured::Link(None), &t);
    assert!(silent.contains("<silent for 1500ms, gave up>"), "{silent}");
}

#[test]
fn a_reply_is_said_without_its_wrapping() {
    assert_eq!(said(b""), "accepted (no complaint)");

    // only the last chunk of an image can draw a complaint worth waiting for
    assert_eq!((chunk_wait(0, 2), chunk_wait(1, 2)), (1_000, 400_000));
    let mut stored = said(b"");
    hear(&mut stored, 0, 2, b"EARLY");
    assert_eq!(stored, "accepted (no complaint)");
    hear(&mut stored, 1, 2, b"EINVAL");
    assert_eq!(stored, "EINVAL");
    assert_eq!(said(b"\x1b_Gi=700;EINVAL:too large\x1b\\"), "_Gi=700;EINVAL:too large");
}

#[test]
fn a_ladder_lines_its_columns_up() {
    assert_eq!(rungs(), vec![8192, 8500, 9000, 9500, 10000, 11000, 12000]);
    assert_eq!(
        rung_text(1000, 8192, "accepted (no complaint)", "EINVAL"),
        "  1000 x 8192      33 MB  store: accepted (no complaint)    place: EINVAL\n"
    );
    assert_eq!(
        try_place(701, 1000, 480),
        "\x1b_Ga=p,i=701,x=0,y=0,w=1000,h=480,c=24,r=1,q=1;\x1b\\"
    );
}

#[test]
fn each_question_has_a_query_and_a_reply() {
    assert_eq!(Question::Status(1).query(), "\x1b[5n");
    assert_eq!(Question::Cell(1).query(), "\x1b[16t");
    assert_eq!(Question::Version(1).query(), "\x1b[>q\x1b[5n");
    assert!(Question::Status(1).answered(b"\x1b[0n"));
    assert!(!Question::Status(1).answered(b"\x1b[0"));
    assert!(Question::Cell(1).answered(b"\x1b[6;20;10t"));
    assert!(!Question::Cell(1).answered(b"\x1b[6;20;10"));
    assert!(Question::Version(1).answered(b"\x1bP>|kitty\x1b\\\x1b[0n"));
    assert!(!Question::Version(1).answered(b"\x1bP>|kitty"));
}
