use mm_engine::ipc::is_kill_command;

#[test]
fn kill_line_stops_trading() {
    assert!(is_kill_command("KILL\n"));
    assert!(is_kill_command("KILL\r\n"));
    assert!(is_kill_command("KILL"));
}

#[test]
fn kill_line_may_be_in_any_case_and_padded() {
    assert!(is_kill_command("kill\n"));
    assert!(is_kill_command("KiLl\n"));
    assert!(is_kill_command("  \t kill \u{a0}\u{2003}\n"));
    assert!(is_kill_command("\u{3000}KILL\u{0b}\u{0c}\u{85}"));
}

#[test]
fn other_lines_do_not_stop_trading() {
    for line in [
        "",
        "\n",
        "   \n",
        "KIL\n",
        "KILLS\n",
        "K ILL\n",
        "KILL KILL\n",
        "\"KILL\"\n",
        "K\u{130}LL\n",
        "\u{212a}ILL\n",
        "\u{200b}KILL\n",
        "stop\n",
    ] {
        assert!(!is_kill_command(line), "{line:?}");
    }
}
