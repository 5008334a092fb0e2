use reversi::client::{is_well_formed, mes_to_command, read_message, Command};

fn read(line: &str) -> Command {
    let mes = line.to_string();
    assert!(is_well_formed(&mes));
    mes_to_command(&mes)
}

#[test]
fn reads_checked_message() {
    match read_message(&"MOVE F5\n".to_string()) {
        Some(Command::Move(m)) => assert_eq!(m, "F5"),
        _ => panic!("not a move"),
    }
}

#[test]
fn reads_move() {
    match read("MOVE D3\n") {
        Command::Move(m) => assert_eq!(m, "D3"),
        _ => panic!("not a move"),
    }
    match read("MOVE PASS\n") {
        Command::Move(m) => assert_eq!(m, "PASS"),
        _ => panic!("not a move"),
    }
}

#[test]
fn reads_open_as_move() {
    match read("OPEN someone\n") {
        Command::Move(m) => assert_eq!(m, "someone"),
        _ => panic!("not read as a move"),
    }
}

#[test]
fn reads_ack() {
    match read("ACK 59871\n") {
        Command::Ack(t) => assert_eq!(t, 59871),
        _ => panic!("not an ack"),
    }
    match read("ACK +7\n") {
        Command::Ack(t) => assert_eq!(t, 7),
        _ => panic!("not an ack"),
    }
}

#[test]
fn reads_end() {
    match read("END WIN 40 24 DOUBLE_PASS\n") {
        Command::End(wl, n, m, reason) => {
            assert_eq!(wl, "WIN");
            assert_eq!(n, 40);
            assert_eq!(m, 24);
            assert_eq!(reason, "DOUBLE_PASS");
        },
        _ => panic!("not an end"),
    }
}

#[test]
fn reads_start() {
    match read("START BLACK rival 60000\n") {
        Command::Start(a, b, c) => {
            assert_eq!(a, "BLACK");
            assert_eq!(b, "rival");
            assert_eq!(c, "60000");
        },
        _ => panic!("not a start"),
    }
}

#[test]
fn reads_bye() {
    match read("BYE rival 3 1 0\n") {
        Command::Bye(stat) => assert_eq!(stat, "rival 3 1 0"),
        _ => panic!("not a bye"),
    }
}

#[test]
fn words_split_on_any_white_space() {
    match read("MOVE \t C4  \n") {
        Command::Move(m) => assert_eq!(m, "C4"),
        _ => panic!("not a move"),
    }
}

#[test]
fn rejects_malformed_messages() {
    for line in [
        "MOVE D3",
        "MOVE\n",
        "HELLO there\n",
        "ACK soon\n",
        "ACK 18446744073709551616\n",
        "END WIN 4294967296 1 x\n",
        "END WIN 1 2\n",
        "START BLACK rival\n",
        "BYE\n",
        "",
    ] {
        assert!(!is_well_formed(&line.to_string()), "{:?}", line);
    }
    assert!(read_message(&"HELLO there\n".to_string()).is_none());
    assert!(is_well_formed(&"ACK 18446744073709551615\n".to_string()));
    assert!(is_well_formed(&"END LOSE 4294967295 0 x\n".to_string()));
}
